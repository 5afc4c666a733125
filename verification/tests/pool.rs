use jerky::pool::{crawl_width, drain_width, lowest_failure, Claims, Taken, Worklist};

/// One worker going through a list that is known beforehand.
fn drain(items: &[usize], fails: impl Fn(usize) -> bool) -> (Vec<usize>, Option<usize>) {
    let mut claims = Claims::new(items.len());
    let mut ran = Vec::new();
    let mut failed = Vec::new();
    while let Some(index) = claims.claim() {
        ran.push(items[index]);
        if fails(items[index]) {
            failed.push(index);
            claims.fail();
        }
    }
    (ran, lowest_failure(&failed))
}

#[test]
fn the_lowest_indexed_failure_is_the_one_reported() {
    assert_eq!(lowest_failure(&vec![30, 3, 17]), Some(3));
    assert_eq!(lowest_failure(&Vec::new()), None);
}

#[test]
fn a_failure_stops_new_work_being_claimed() {
    let items: Vec<usize> = (0..40).collect();

    let (claimed, failure) = drain(&items, |item| item == 0);

    assert_eq!(failure, Some(0));
    assert_eq!(claimed, [0], "the pool kept claiming work after a failure");
}

#[test]
fn every_item_runs_when_none_fail() {
    let items: Vec<usize> = (0..100).collect();

    let (seen, failure) = drain(&items, |_| false);

    assert_eq!(failure, None);
    assert_eq!(seen, items);
}

#[test]
fn an_empty_list_starts_no_threads_and_succeeds() {
    assert_eq!(drain_width(16, 0), 0);
    assert_eq!(drain(&[], |_| true), (Vec::new(), None));
    assert_eq!(drain_width(16, 40), 16);
    assert_eq!(drain_width(16, 3), 3);
}

/// One worker going through a list that grows while it is worked on.
fn crawl(seeds: Vec<usize>, body: impl Fn(usize, &mut Worklist<usize>)) -> Vec<usize> {
    let mut list = Worklist::new(seeds, 1);
    let mut seen = Vec::new();
    while let Taken::Item(item) = list.take() {
        seen.push(item);
        body(item, &mut list);
    }
    seen
}

#[test]
fn a_crawl_runs_work_its_own_body_discovers() {
    let mut seen = crawl(vec![1], |node, work| {
        if node < 128 {
            work.push(node * 2);
            work.push(node * 2 + 1);
        }
    });

    seen.sort_unstable();
    assert_eq!(seen, (1..256).collect::<Vec<_>>());
}

#[test]
fn a_crawl_seeded_with_one_item_still_reaches_its_full_width() {
    assert_eq!(crawl_width(8), 8);
    assert_eq!(crawl_width(0), 1);
}

#[test]
fn a_crawl_down_a_chain_ends_rather_than_parking_forever() {
    let seen = crawl(vec![0], |step, work| {
        if step < 200 {
            work.push(step + 1);
        }
    });

    assert_eq!(seen.len(), 201);
}

#[test]
fn stopping_a_crawl_leaves_the_rest_of_the_list_untaken() {
    let seen = crawl(vec![0], |step, work| {
        for next in 1..=10 {
            work.push(step + next);
        }
        if step == 0 {
            work.stop();
        }
    });

    assert_eq!(
        seen,
        [0],
        "the crawl kept taking work after it was stopped"
    );
}

#[test]
fn a_worker_waits_while_another_may_still_find_something() {
    let mut list = Worklist::new(vec![1], 2);
    assert!(matches!(list.take(), Taken::Item(1)));
    assert!(matches!(list.take(), Taken::Wait));
    list.push(2);
    list.woken();
    assert!(matches!(list.take(), Taken::Item(2)));
    assert!(matches!(list.take(), Taken::Wait));
    assert!(matches!(list.take(), Taken::Over));
}
