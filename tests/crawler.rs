use labisu::crawler::{wants_link, Crawler};

#[test]
fn crawler_new_keeps_settings() {
    let crawler = Crawler::new("https://pwr.edu.pl/".to_owned(), 1, vec!["pwr.edu".to_owned()], vec![".txt".to_owned()]);
    assert_eq!("https://pwr.edu.pl/", crawler.root());
    assert_eq!(1, crawler.max_depth());
    assert_eq!(&vec!["pwr.edu".to_owned()], crawler.must_contain());
    assert_eq!(&vec![".txt".to_owned()], crawler.stop_words());
}

#[test]
fn crawler_records_links() {
    let crawler = Crawler::new("root".to_owned(), 1, vec![], vec![]);
    let (mut graph, mut queue) = crawler.start();
    assert_eq!(vec![(0, 0)], queue);
    assert_eq!(Some("root".to_string()), graph.idx_to_name(0));
    crawler.record_links(&mut graph, &mut queue, 0, 0, &vec!["a".to_owned(), "b".to_owned(), "root".to_owned()]);
    assert_eq!(3, graph.get_num_of_vertices());
    assert_eq!(2, graph.get_num_of_edges());
    assert_eq!(vec![(0, 0), (1, 1), (1, 2)], queue);
    // at the last depth only known pages are linked
    crawler.record_links(&mut graph, &mut queue, 1, 1, &vec!["b".to_owned(), "c".to_owned()]);
    assert_eq!(3, graph.get_num_of_vertices());
    assert_eq!(3, graph.get_num_of_edges());
    assert!(graph.neighbours_idx(1).unwrap().contains(&2));
    assert_eq!(3, queue.len());
}

#[test]
fn wants_link_filters_addresses() {
    let must = vec!["pwr.edu".to_owned()];
    let stop = vec![".txt".to_owned()];
    assert!(wants_link("https://pwr.edu.pl/a", &must, &stop));
    assert!(!wants_link("https://pwr.edu.pl/a.txt", &must, &stop));
    assert!(!wants_link("https://example.com/", &must, &stop));
    assert!(!wants_link("ftp://pwr.edu.pl/", &must, &stop));
    assert!(!wants_link("htt", &vec![], &vec![]));
    assert!(wants_link("http", &vec![], &vec![]));
    assert!(wants_link("http://a.b/c", &vec!["".to_owned(), "a.b/c".to_owned()], &vec!["d".to_owned()]));
    assert!(!wants_link("http://a.b/c", &vec!["a.b/cd".to_owned()], &vec![]));
}
