use room_events::{ChunkIdentifier, Event, Gap, Position, RoomEvents, VectorDiff};

fn ev(id: &str) -> Event {
    Event::new(Some(id.to_owned()), format!(r#"{{"type":"m.room.message","event_id":"{id}","content":{{}}}}"#))
}

fn at(chunk: u64, index: usize) -> Position {
    Position::new(ChunkIdentifier::new(chunk), index)
}

fn layout(room: &RoomEvents) -> Vec<(String, Position)> {
    room.events().into_iter().map(|(p, e)| (e.event_id().unwrap(), p)).collect()
}

fn appended(diff: &VectorDiff) -> Vec<String> {
    match diff {
        VectorDiff::Append { values } => values.iter().map(|e| e.event_id().unwrap()).collect(),
        _ => panic!("expected an Append"),
    }
}

#[test]
fn scenario_basic_push() {
    let mut room = RoomEvents::new();
    room.push_events(vec![ev("$ev0"), ev("$ev1")]);
    room.push_events(vec![ev("$ev2")]);
    assert_eq!(
        layout(&room),
        vec![("$ev0".to_owned(), at(0, 0)), ("$ev1".to_owned(), at(0, 1)), ("$ev2".to_owned(), at(0, 2))]
    );
    let diffs = room.updates_as_vector_diffs();
    assert_eq!(diffs.len(), 2);
    assert_eq!(appended(&diffs[0]), vec!["$ev0", "$ev1"]);
    assert_eq!(appended(&diffs[1]), vec!["$ev2"]);
}

#[test]
fn scenario_push_with_gap() {
    let mut room = RoomEvents::new();
    room.push_events(vec![ev("$ev0")]);
    room.push_gap(Gap { prev_token: "hello".to_owned() }).unwrap();
    room.push_events(vec![ev("$ev1")]);
    assert_eq!(layout(&room), vec![("$ev0".to_owned(), at(0, 0)), ("$ev1".to_owned(), at(2, 0))]);
    let kinds: Vec<bool> = room.chunks().iter().map(|c| c.is_items()).collect();
    assert_eq!(kinds, vec![true, false, true]);
    let diffs = room.updates_as_vector_diffs();
    assert_eq!(diffs.len(), 2);
    assert_eq!(appended(&diffs[0]), vec!["$ev0"]);
    assert_eq!(appended(&diffs[1]), vec!["$ev1"]);
}

#[test]
fn scenario_replace_gap_with_events() {
    let mut room = RoomEvents::new();
    room.push_events(vec![ev("$ev0")]);
    room.push_gap(Gap { prev_token: "hello".to_owned() }).unwrap();
    let first = room.replace_gap_at(vec![ev("$ev1b"), ev("$ev2")], ChunkIdentifier::new(1)).unwrap();
    assert_eq!(first, Some(at(2, 0)));
    assert_eq!(
        layout(&room),
        vec![("$ev0".to_owned(), at(0, 0)), ("$ev1b".to_owned(), at(2, 0)), ("$ev2".to_owned(), at(2, 1))]
    );
}

#[test]
fn scenario_position_adjustment_on_batch_removal() {
    let mut room = RoomEvents::new();
    room.push_events((0..7).map(|i| ev(&format!("$ev{i}"))).collect());
    room.push_gap(Gap { prev_token: "g".to_owned() }).unwrap();
    room.push_events(vec![ev("$ev7"), ev("$ev8")]);
    let mut pos = at(0, 4);

    room.remove_events_and_update_insert_position(vec!["$ev0".to_owned()], &mut pos);
    assert_eq!(pos, at(0, 3));
    room.remove_events_and_update_insert_position(vec!["$ev5".to_owned()], &mut pos);
    assert_eq!(pos, at(0, 3));
    room.remove_events_and_update_insert_position(vec!["$ev1".to_owned()], &mut pos);
    assert_eq!(pos, at(0, 2));
    let events = room.events();
    assert_eq!(events[2].1.event_id().unwrap(), "$ev4");
    room.remove_events_and_update_insert_position(vec!["$ev4".to_owned()], &mut pos);
    assert_eq!(pos, at(0, 2));
    let events = room.events();
    assert_eq!(events[2].0, pos);
    assert_eq!(events[2].1.event_id().unwrap(), "$ev6");
}

#[test]
fn default_room_is_empty() {
    let room = RoomEvents::default();
    assert!(room.is_empty());
    assert_eq!(room.chunks().len(), 1);
}
