use room_events::{
    get_body_and_filename, is_redacted_event, redaction_target_of, ChunkIdentifier, EmptyChunk, Event, Gap,
    KeyPress, LinkedChunk, LinkedChunkError, MediaSource, Position, RecoveryMode, RecoveryState, RecoveryViewState,
    RoomEvents, ShouldExit, VectorDiff,
};

fn ev(id: &str) -> Event {
    Event::new(Some(id.to_owned()), format!(r#"{{"type":"m.room.message","event_id":"{id}","content":{{}}}}"#))
}

fn gap(token: &str) -> Gap {
    Gap { prev_token: token.to_owned() }
}

fn ids(events: &[(Position, &Event)]) -> Vec<String> {
    events.iter().map(|(_, e)| e.event_id().unwrap()).collect()
}

fn replay(observed: &mut Vec<String>, diffs: Vec<VectorDiff>) {
    for diff in diffs {
        match diff {
            VectorDiff::Append { values } => observed.extend(values.iter().map(|e| e.event_id().unwrap())),
            VectorDiff::Insert { index, value } => observed.insert(index, value.event_id().unwrap()),
            VectorDiff::SetAt { index, value } => observed[index] = value.event_id().unwrap(),
            VectorDiff::Remove { index } => {
                observed.remove(index);
            }
            VectorDiff::Clear => observed.clear(),
        }
    }
}

fn chunk_shape(lc: &LinkedChunk) -> Vec<(u64, Option<usize>)> {
    lc.chunks().iter().map(|c| (c.identifier().index(), if c.is_gap() { None } else { Some(c.num_items()) })).collect()
}

#[test]
fn push_overflow_fills_then_spills() {
    let mut lc = LinkedChunk::new(3);
    lc.push_items_back((0..7).map(|i| ev(&format!("$e{i}"))).collect());
    assert_eq!(chunk_shape(&lc), vec![(0, Some(3)), (1, Some(3)), (2, Some(1))]);
    let items = lc.items();
    assert_eq!(items[3].0, Position::new(ChunkIdentifier::new(1), 0));
    assert_eq!(items[6].0, Position::new(ChunkIdentifier::new(2), 0));
}

#[test]
fn push_overflow_creates_ceiling_difference_of_chunks() {
    // Last chunk holds 1 item, capacity 3, 5 more items:
    // ceil(6 / 3) - ceil(1 / 3) = 1 new chunk.
    let mut lc = LinkedChunk::new(3);
    lc.push_items_back(vec![ev("$a")]);
    let before = lc.chunks().len();
    lc.push_items_back((0..5).map(|i| ev(&format!("$b{i}"))).collect());
    assert_eq!(lc.chunks().len() - before, 1);

    // After a gap, 7 items: ceil(7 / 3) - 0 = 3 new chunks.
    lc.push_gap_back(gap("g")).unwrap();
    let before = lc.chunks().len();
    lc.push_items_back((0..7).map(|i| ev(&format!("$c{i}"))).collect());
    assert_eq!(lc.chunks().len() - before, 3);
}

#[test]
fn push_nothing_makes_no_diff() {
    let mut lc = LinkedChunk::new(4);
    lc.push_items_back(vec![]);
    assert!(lc.updates_as_vector_diffs().is_empty());
    assert_eq!(chunk_shape(&lc), vec![(0, Some(0))]);
}

#[test]
fn push_gap_after_gap_is_refused() {
    let mut lc = LinkedChunk::new(4);
    lc.push_gap_back(gap("a")).unwrap();
    assert_eq!(lc.push_gap_back(gap("b")), Err(LinkedChunkError::InvalidOperation));
    assert_eq!(chunk_shape(&lc), vec![(0, Some(0)), (1, None)]);
}

#[test]
fn insert_items_errors() {
    let mut lc = LinkedChunk::new(4);
    lc.push_items_back(vec![ev("$a")]);
    lc.push_gap_back(gap("g")).unwrap();
    let unknown = Position::new(ChunkIdentifier::new(42), 0);
    assert_eq!(lc.insert_items_at(vec![ev("$x")], unknown), Err(LinkedChunkError::InvalidPosition));
    let on_gap = Position::new(ChunkIdentifier::new(1), 0);
    assert_eq!(lc.insert_items_at(vec![ev("$x")], on_gap), Err(LinkedChunkError::NotAnItemsChunk));
    let too_far = Position::new(ChunkIdentifier::new(0), 2);
    assert_eq!(lc.insert_items_at(vec![ev("$x")], too_far), Err(LinkedChunkError::InvalidPosition));
    assert_eq!(ids(&lc.items()), vec!["$a"]);
}

#[test]
fn insert_at_chunk_end_stays_in_that_chunk() {
    let mut lc = LinkedChunk::new(4);
    lc.push_items_back(vec![ev("$a"), ev("$b")]);
    lc.push_gap_back(gap("g")).unwrap();
    lc.push_items_back(vec![ev("$c")]);
    lc.insert_items_at(vec![ev("$x")], Position::new(ChunkIdentifier::new(0), 2)).unwrap();
    assert_eq!(chunk_shape(&lc), vec![(0, Some(3)), (1, None), (2, Some(1))]);
    assert_eq!(ids(&lc.items()), vec!["$a", "$b", "$x", "$c"]);
}

#[test]
fn insert_overflow_splits_and_diffs_are_inserts() {
    let mut lc = LinkedChunk::new(3);
    lc.push_items_back(vec![ev("$a"), ev("$b"), ev("$c")]);
    let mut observed = Vec::new();
    replay(&mut observed, lc.updates_as_vector_diffs());
    lc.insert_items_at(vec![ev("$x")], Position::new(ChunkIdentifier::new(0), 1)).unwrap();
    assert_eq!(chunk_shape(&lc), vec![(0, Some(3)), (1, Some(1))]);
    let diffs = lc.updates_as_vector_diffs();
    assert_eq!(diffs.len(), 1);
    assert!(matches!(&diffs[0], VectorDiff::Insert { index: 1, .. }));
    replay(&mut observed, diffs);
    assert_eq!(observed, vec!["$a", "$x", "$b", "$c"]);
}

#[test]
fn insert_gap_errors() {
    let mut lc = LinkedChunk::new(4);
    lc.push_items_back(vec![ev("$a"), ev("$b")]);
    assert_eq!(
        lc.insert_gap_at(gap("g"), Position::new(ChunkIdentifier::new(0), 2)),
        Err(LinkedChunkError::InvalidPosition)
    );
    lc.insert_gap_at(gap("g"), Position::new(ChunkIdentifier::new(0), 0)).unwrap();
    assert_eq!(chunk_shape(&lc), vec![(1, None), (0, Some(2))]);
    assert_eq!(
        lc.insert_gap_at(gap("h"), Position::new(ChunkIdentifier::new(0), 0)),
        Err(LinkedChunkError::InvalidOperation)
    );
    assert_eq!(
        lc.insert_gap_at(gap("h"), Position::new(ChunkIdentifier::new(1), 0)),
        Err(LinkedChunkError::NotAnItemsChunk)
    );
    assert_eq!(
        lc.insert_gap_at(gap("h"), Position::new(ChunkIdentifier::new(9), 0)),
        Err(LinkedChunkError::InvalidPosition)
    );
}

#[test]
fn remove_gap_errors() {
    let mut lc = LinkedChunk::new(4);
    assert_eq!(lc.remove_gap_at(ChunkIdentifier::new(0)), Err(LinkedChunkError::NotAGap));
    assert_eq!(lc.remove_gap_at(ChunkIdentifier::new(5)), Err(LinkedChunkError::ChunkNotFound));
    assert_eq!(lc.replace_gap_at(vec![ev("$a")], ChunkIdentifier::new(5)), Err(LinkedChunkError::ChunkNotFound));
}

#[test]
fn replace_gap_with_nothing_equals_remove_gap() {
    let build = || {
        let mut lc = LinkedChunk::new(4);
        lc.push_items_back(vec![ev("$a")]);
        lc.push_gap_back(gap("g")).unwrap();
        lc.push_items_back(vec![ev("$b")]);
        lc
    };
    let mut one = build();
    let mut two = build();
    let r1 = one.replace_gap_at(vec![], ChunkIdentifier::new(1));
    let r2 = two.remove_gap_at(ChunkIdentifier::new(1));
    assert_eq!(r1, r2);
    assert_eq!(r1, Ok(Some(Position::new(ChunkIdentifier::new(2), 0))));
    assert_eq!(chunk_shape(&one), chunk_shape(&two));
    assert_eq!(one.updates_as_vector_diffs().len(), two.updates_as_vector_diffs().len());
}

#[test]
fn replace_item_and_remove_item() {
    let mut lc = LinkedChunk::new(4);
    lc.push_items_back(vec![ev("$a"), ev("$b")]);
    let mut observed = Vec::new();
    replay(&mut observed, lc.updates_as_vector_diffs());
    lc.replace_item_at(Position::new(ChunkIdentifier::new(0), 1), ev("$z")).unwrap();
    assert_eq!(
        lc.replace_item_at(Position::new(ChunkIdentifier::new(0), 2), ev("$z")),
        Err(LinkedChunkError::InvalidPosition)
    );
    let removed = lc.remove_item_at(Position::new(ChunkIdentifier::new(0), 0), EmptyChunk::Remove).unwrap();
    assert_eq!(removed.event_id().unwrap(), "$a");
    let diffs = lc.updates_as_vector_diffs();
    assert!(matches!(&diffs[0], VectorDiff::SetAt { index: 1, .. }));
    assert!(matches!(&diffs[1], VectorDiff::Remove { index: 0 }));
    replay(&mut observed, diffs);
    assert_eq!(observed, vec!["$z"]);
    assert_eq!(ids(&lc.items()), vec!["$z"]);
}

#[test]
fn remove_item_between_gaps_is_refused_with_remove_policy() {
    let mut lc = LinkedChunk::new(4);
    lc.push_items_back(vec![ev("$a")]);
    lc.push_gap_back(gap("g1")).unwrap();
    lc.push_items_back(vec![ev("$b")]);
    lc.push_gap_back(gap("g2")).unwrap();
    let pos = Position::new(ChunkIdentifier::new(2), 0);
    assert_eq!(lc.remove_item_at(pos, EmptyChunk::Remove).map(|_| ()), Err(LinkedChunkError::InvalidOperation));
    assert_eq!(ids(&lc.items()), vec!["$a", "$b"]);
    lc.remove_item_at(pos, EmptyChunk::Keep).unwrap();
    assert_eq!(chunk_shape(&lc), vec![(0, Some(1)), (1, None), (2, Some(0)), (3, None)]);
}

#[test]
fn replaying_diffs_rebuilds_the_items() {
    let mut lc = LinkedChunk::new(2);
    let mut observed = Vec::new();
    lc.push_items_back(vec![ev("$a"), ev("$b"), ev("$c")]);
    lc.push_gap_back(gap("g")).unwrap();
    lc.push_items_back(vec![ev("$d")]);
    replay(&mut observed, lc.updates_as_vector_diffs());
    lc.replace_gap_at(vec![ev("$x"), ev("$y"), ev("$z")], ChunkIdentifier::new(2)).unwrap();
    lc.insert_items_at(vec![ev("$i")], Position::new(ChunkIdentifier::new(0), 1)).unwrap();
    lc.remove_item_at(Position::new(ChunkIdentifier::new(1), 0), EmptyChunk::Remove).unwrap();
    lc.replace_item_at(Position::new(ChunkIdentifier::new(3), 0), ev("$D")).unwrap();
    replay(&mut observed, lc.updates_as_vector_diffs());
    assert_eq!(observed, ids(&lc.items()));
    lc.clear();
    lc.push_items_back(vec![ev("$n")]);
    replay(&mut observed, lc.updates_as_vector_diffs());
    assert_eq!(observed, vec!["$n"]);
}

#[test]
fn clear_issues_a_fresh_identifier() {
    let mut lc = LinkedChunk::new(2);
    lc.push_items_back(vec![ev("$a"), ev("$b"), ev("$c")]);
    lc.push_gap_back(gap("g")).unwrap();
    lc.clear();
    assert_eq!(chunk_shape(&lc), vec![(3, Some(0))]);
    lc.push_gap_back(gap("h")).unwrap();
    lc.replace_gap_at(vec![ev("$d")], ChunkIdentifier::new(4)).unwrap();
    assert_eq!(chunk_shape(&lc), vec![(3, Some(0)), (5, Some(1))]);
}

#[test]
fn push_then_remove_gives_back_the_items() {
    let mut room = RoomEvents::new();
    room.push_events(vec![ev("$a")]);
    room.updates_as_vector_diffs();
    room.push_events(vec![ev("$e")]);
    room.remove_events_by_id(vec!["$e".to_owned()]);
    assert_eq!(ids(&room.events()), vec!["$a"]);
    let diffs = room.updates_as_vector_diffs();
    assert_eq!(diffs.len(), 2);
    assert!(matches!(&diffs[0], VectorDiff::Append { values } if values.len() == 1));
    assert!(matches!(&diffs[1], VectorDiff::Remove { index: 1 }));
}

#[test]
fn revents_and_rchunks_go_backward() {
    let mut room = RoomEvents::new();
    room.push_events(vec![ev("$a"), ev("$b")]);
    room.push_gap(gap("g")).unwrap();
    room.push_events(vec![ev("$c")]);
    assert_eq!(ids(&room.revents()), vec!["$c", "$b", "$a"]);
    let back: Vec<u64> = room.rchunks().iter().map(|c| c.identifier().index()).collect();
    assert_eq!(back, vec![2, 1, 0]);
    assert_eq!(room.chunk_identifier(|c| c.is_gap()), Some(ChunkIdentifier::new(1)));
    assert!(!room.is_empty());
}

#[test]
fn debug_string_lists_chunks() {
    let mut room = RoomEvents::new();
    room.push_events(vec![ev("$a"), ev("$b")]);
    room.push_gap(gap("tok")).unwrap();
    room.push_events(vec![Event::new(None, "{}".to_owned())]);
    assert_eq!(
        room.debug_string(),
        vec!["chunk #0: $a, $b".to_owned(), "chunk #1: gap('tok')".to_owned(), "chunk #2: <no event id>".to_owned()]
    );
}

#[test]
fn debug_string_writes_large_identifiers() {
    let mut room = RoomEvents::new();
    for i in 0..6 {
        room.push_events(vec![ev(&format!("$e{i}"))]);
        room.push_gap(gap("g")).unwrap();
    }
    assert_eq!(room.debug_string()[10], "chunk #10: $e5");
    assert_eq!(room.debug_string()[11], "chunk #11: gap('g')");
}

#[test]
fn room_over_prior_chunks() {
    let mut lc = LinkedChunk::new(room_events::DEFAULT_CHUNK_CAPACITY);
    lc.push_items_back(vec![ev("$a")]);
    let room = RoomEvents::with_initial_chunks(Some(lc));
    assert_eq!(ids(&room.events()), vec!["$a"]);
}

#[test]
fn redaction_of_already_redacted_event_changes_nothing() {
    let redacted = Event::new(
        Some("$a".to_owned()),
        r#"{"type":"m.room.message","event_id":"$a","content":{},"unsigned":{"redacted_because":{}}}"#.to_owned(),
    );
    let mut room = RoomEvents::new();
    room.push_events(vec![redacted, ev("$b")]);
    room.updates_as_vector_diffs();
    let always = |_: &String, _: &String, _: &String| Some("{}".to_owned());
    room.on_new_events(&"11".to_owned(), &vec![redaction("$a", true), redaction("$zz", true)], &always);
    assert!(room.updates_as_vector_diffs().is_empty());
    assert!(room.events()[0].1.raw().contains("redacted_because"));
}

fn redaction(redacts: &str, in_content: bool) -> Event {
    let raw = if in_content {
        format!(r#"{{"type":"m.room.redaction","event_id":"$r","content":{{"redacts":"{redacts}"}}}}"#)
    } else {
        format!(r#"{{"type":"m.room.redaction","event_id":"$r","redacts":"{redacts}","content":{{}}}}"#)
    };
    Event::new(Some("$r".to_owned()), raw)
}

fn fake_redact(target: &String, _redaction: &String, _version: &String) -> Option<String> {
    if target.contains("redacted_because") {
        None
    } else {
        Some(r#"{"type":"m.room.message","content":{},"unsigned":{"redacted_because":{}}}"#.to_owned())
    }
}

#[test]
fn redaction_target_follows_room_version() {
    let top = redaction("$a", false);
    let inner = redaction("$a", true);
    assert_eq!(redaction_target_of("10", top.raw()), Some("$a".to_owned()));
    assert_eq!(redaction_target_of("11", top.raw()), None);
    assert_eq!(redaction_target_of("11", inner.raw()), Some("$a".to_owned()));
    assert_eq!(redaction_target_of("1", inner.raw()), None);
    assert_eq!(redaction_target_of("11", ev("$m").raw()), None);
    assert_eq!(redaction_target_of("11", "not json"), None);
}

#[test]
fn redacted_marker_is_read_from_unsigned() {
    assert!(is_redacted_event(r#"{"unsigned":{"redacted_because":{}}}"#));
    assert!(!is_redacted_event(r#"{"unsigned":{}}"#));
    assert!(!is_redacted_event("garbage"));
}

#[test]
fn redaction_applied_twice_changes_nothing_the_second_time() {
    let mut room = RoomEvents::new();
    room.push_events(vec![ev("$a"), ev("$b")]);
    room.updates_as_vector_diffs();
    let version = "11".to_owned();
    let red = redaction("$a", true);
    room.on_new_events(&version, &vec![red.clone()], &fake_redact);
    let diffs = room.updates_as_vector_diffs();
    assert_eq!(diffs.len(), 1);
    assert!(matches!(&diffs[0], VectorDiff::SetAt { index: 0, .. }));
    let events = room.events();
    assert!(events[0].1.raw().contains("redacted_because"));
    assert_eq!(events[0].1.event_id().unwrap(), "$a");
    assert_eq!(room.redaction_position("11", red.raw()), None);
    room.on_new_events(&version, &vec![red], &fake_redact);
    assert!(room.updates_as_vector_diffs().is_empty());
}

#[test]
fn redaction_of_unknown_event_is_dropped() {
    let mut room = RoomEvents::new();
    room.push_events(vec![ev("$a")]);
    room.updates_as_vector_diffs();
    room.on_new_events(&"11".to_owned(), &vec![redaction("$zz", true)], &fake_redact);
    assert!(room.updates_as_vector_diffs().is_empty());
}

#[test]
fn reset_then_push_starts_with_clear() {
    let mut room = RoomEvents::new();
    room.push_events(vec![ev("$a")]);
    room.updates_as_vector_diffs();
    room.reset();
    room.push_events(vec![ev("$b"), ev("$c")]);
    let diffs = room.updates_as_vector_diffs();
    assert!(matches!(&diffs[0], VectorDiff::Clear));
    assert!(matches!(&diffs[1], VectorDiff::Append { values } if values.len() == 2));
    assert_eq!(room.chunks()[0].identifier(), ChunkIdentifier::new(1));
}

#[test]
fn body_and_filename_follow_the_caption() {
    assert_eq!(
        get_body_and_filename("f.png".to_owned(), Some("nice".to_owned())),
        ("nice".to_owned(), Some("f.png".to_owned()))
    );
    assert_eq!(get_body_and_filename("f.png".to_owned(), None), ("f.png".to_owned(), None));
}

#[test]
fn media_source_url() {
    assert_eq!(MediaSource::plain("mxc://a/b".to_owned()).url(), "mxc://a/b");
    let enc = MediaSource::encrypted("mxc://c/d".to_owned());
    assert_eq!(enc.url(), "mxc://c/d");
    assert!(enc.is_encrypted());
}

#[test]
fn recovery_view_follows_state_and_keys() {
    let mut view = RecoveryViewState::new();
    assert!(!view.handle_key_press(KeyPress::Char('x'), ShouldExit::No));
    assert!(view.handle_key_press(KeyPress::Char('q'), ShouldExit::No));
    assert!(view.handle_key_press(KeyPress::Esc, ShouldExit::No));
    view.update_state(RecoveryState::Incomplete);
    assert_eq!(view.mode, RecoveryMode::Incomplete);
    view.update_state(RecoveryState::Disabled);
    assert_eq!(view.mode, RecoveryMode::Default);
    assert!(!view.handle_key_press(KeyPress::Esc, ShouldExit::No));
    assert_eq!(view.mode, RecoveryMode::Default);
    assert!(!view.handle_key_press(KeyPress::Esc, ShouldExit::OnlySubScreen));
    assert_eq!(view.mode, RecoveryMode::Unknown);
    view.update_state(RecoveryState::Enabled);
    assert!(view.handle_key_press(KeyPress::Other, ShouldExit::Yes));
    view.update_state(RecoveryState::Unknown);
    assert_eq!(view.mode, RecoveryMode::Unknown);
}
