use maze_tui::tape::{Delta, Tape};

fn d(id: u32, before: u8, after: u8, burst: usize) -> Delta<u32, u8> {
    Delta { id, before, after, burst }
}

#[test]
fn empty_tape_has_no_frame() {
    let t: Tape<u32, u8> = Tape::new();
    assert!(t.is_empty());
    assert_eq!(t.len(), 0);
    assert!(t.cur_step().is_none());
}

#[test]
fn next_then_prev_returns_to_the_same_frame() {
    let mut t: Tape<u32, u8> = Tape::new();
    t.push_burst(&[d(0, 0, 1, 2), d(1, 0, 1, 2)]);
    t.push(d(2, 0, 1, 1));
    t.push_burst(&[d(3, 0, 1, 3), d(4, 0, 1, 3), d(5, 0, 1, 3)]);
    assert_eq!(t.len(), 6);
    let first = t.cur_step().unwrap().len();
    assert_eq!(first, 2);
    assert!(t.set_next());
    assert_eq!(t.cur_step().unwrap()[0].id, 2);
    assert!(t.set_prev());
    assert_eq!(t.cur_step().unwrap()[0].id, 0);
    assert!(!t.set_prev());
}

#[test]
fn next_delta_walks_frame_by_frame() {
    let mut t: Tape<u32, u8> = Tape::new();
    t.push_burst(&[d(0, 0, 1, 2), d(1, 0, 1, 2)]);
    t.push(d(2, 0, 1, 1));
    t.push_burst(&[d(3, 0, 1, 3), d(4, 0, 1, 3), d(5, 0, 1, 3)]);
    let ids: Vec<u32> = t.next_delta().unwrap().iter().map(|x| x.id).collect();
    assert_eq!(ids, vec![2]);
    let ids: Vec<u32> = t.next_delta().unwrap().iter().map(|x| x.id).collect();
    assert_eq!(ids, vec![3, 4, 5]);
    assert!(t.next_delta().is_none());
    let ids: Vec<u32> = t.prev_delta().unwrap().iter().map(|x| x.id).collect();
    assert_eq!(ids, vec![2]);
}

#[test]
fn end_and_start_move_the_cursor() {
    let mut t: Tape<u32, u8> = Tape::new();
    t.push(d(7, 1, 2, 1));
    t.push(d(8, 2, 3, 1));
    t.end();
    assert!(t.at_end());
    assert_eq!(t.cur_step().unwrap()[0].id, 8);
    t.start();
    assert!(t.at_start());
    assert_eq!(t.cur_step().unwrap()[0].after, 2);
}
