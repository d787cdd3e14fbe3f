use mini_search_engine::crawler::{CrawlStep, Crawler};

fn fetch(step: CrawlStep) -> (String, u32) {
    match step {
        CrawlStep::Fetch { url, id } => (url, id),
        CrawlStep::Idle => panic!("idle"),
        CrawlStep::Finished => panic!("finished"),
    }
}

#[test]
fn crawl_rounds() {
    let mut c = Crawler::new("http://s/", 2);
    assert_eq!(fetch(c.next_step()), ("http://s/".to_string(), 0));
    // Asking again before the page is done names the same page.
    assert_eq!(fetch(c.next_step()), ("http://s/".to_string(), 0));
    c.page_done(&vec!["http://s/a".to_string(), "http://s/".to_string(), "http://s/b".to_string(), "http://s/a".to_string()]);
    assert_eq!(c.current_id(), 1);
    // Round two: the seed is visited, a and b are fetched in order.
    assert_eq!(fetch(c.next_step()), ("http://s/a".to_string(), 1));
    assert_eq!(c.visited_links(), &vec!["http://s/".to_string()]);
    c.page_done(&vec!["http://s/c".to_string(), "http://s/b".to_string()]);
    assert_eq!(fetch(c.next_step()), ("http://s/b".to_string(), 2));
    c.page_done(&vec![]);
    // Three pages visited, more than the limit of 2.
    assert!(matches!(c.next_step(), CrawlStep::Finished));
    assert_eq!(
        c.visited_links(),
        &vec!["http://s/".to_string(), "http://s/a".to_string(), "http://s/b".to_string()]
    );
    assert!(matches!(c.next_step(), CrawlStep::Finished));
}

#[test]
fn crawl_goes_idle_without_new_links() {
    let mut c = Crawler::new("http://s/", 6);
    assert_eq!(fetch(c.next_step()), ("http://s/".to_string(), 0));
    c.page_done(&vec!["http://s/".to_string()]);
    assert!(matches!(c.next_step(), CrawlStep::Idle));
    assert!(matches!(c.next_step(), CrawlStep::Idle));
    assert_eq!(c.visited_links(), &vec!["http://s/".to_string()]);
}

#[test]
fn limit_zero_finishes_after_first_round() {
    let mut c = Crawler::new("seed", 0);
    assert_eq!(fetch(c.next_step()), ("seed".to_string(), 0));
    c.page_done(&vec!["x".to_string()]);
    assert!(matches!(c.next_step(), CrawlStep::Finished));
}
