use room_events::{ChunkIdentifier, Event, Gap, Position, RoomEvents, VectorDiff};

fn new_event(event_id: &str) -> (String, Event) {
    let raw = format!(
        r#"{{"type":"m.room.message","event_id":"{event_id}","sender":"@mnt_io:matrix.org","content":{{"msgtype":"m.text","body":""}}}}"#
    );
    (event_id.to_owned(), Event::new(Some(event_id.to_owned()), raw))
}

fn assert_events_eq(events: Vec<(Position, &Event)>, expected: &[(&String, u64, usize)]) {
    assert_eq!(events.len(), expected.len(), "unexpected number of events");
    for ((position, event), (event_id, chunk, index)) in events.iter().zip(expected.iter()) {
        assert_eq!(position.chunk_identifier().index(), *chunk);
        assert_eq!(position.index(), *index);
        assert_eq!(event.event_id().unwrap(), **event_id);
    }
}

fn position_of(room_events: &RoomEvents, event_id: &str) -> Position {
    room_events
        .events()
        .into_iter()
        .find_map(|(position, event)| (event.event_id().unwrap() == event_id).then_some(position))
        .unwrap()
}

#[test]
fn test_new_room_events_has_zero_events() {
    let room_events = RoomEvents::new();

    assert_eq!(room_events.events().len(), 0);
}

#[test]
fn test_push_events() {
    let (event_id_0, event_0) = new_event("$ev0");
    let (event_id_1, event_1) = new_event("$ev1");
    let (event_id_2, event_2) = new_event("$ev2");

    let mut room_events = RoomEvents::new();

    room_events.push_events(vec![event_0, event_1]);
    room_events.push_events(vec![event_2]);

    assert_events_eq(
        room_events.events(),
        &[(&event_id_0, 0, 0), (&event_id_1, 0, 1), (&event_id_2, 0, 2)],
    );
}

#[test]
fn test_push_gap() {
    let (event_id_0, event_0) = new_event("$ev0");
    let (event_id_1, event_1) = new_event("$ev1");

    let mut room_events = RoomEvents::new();

    room_events.push_events(vec![event_0]);
    room_events.push_gap(Gap { prev_token: "hello".to_owned() }).unwrap();
    room_events.push_events(vec![event_1]);

    assert_events_eq(room_events.events(), &[(&event_id_0, 0, 0), (&event_id_1, 2, 0)]);

    {
        let mut chunks = room_events.chunks().iter();

        let chunk = chunks.next().unwrap();
        assert!(chunk.is_items());

        let chunk = chunks.next().unwrap();
        assert!(chunk.is_gap());

        let chunk = chunks.next().unwrap();
        assert!(chunk.is_items());

        assert!(chunks.next().is_none());
    }
}

#[test]
fn test_insert_events_at() {
    let (event_id_0, event_0) = new_event("$ev0");
    let (event_id_1, event_1) = new_event("$ev1");
    let (event_id_2, event_2) = new_event("$ev2");

    let mut room_events = RoomEvents::new();

    room_events.push_events(vec![event_0, event_1]);

    let position_of_event_1 = position_of(&room_events, &event_id_1);

    room_events.insert_events_at(vec![event_2], position_of_event_1).unwrap();

    assert_events_eq(
        room_events.events(),
        &[(&event_id_0, 0, 0), (&event_id_2, 0, 1), (&event_id_1, 0, 2)],
    );
}

#[test]
fn test_insert_gap_at() {
    let (event_id_0, event_0) = new_event("$ev0");
    let (event_id_1, event_1) = new_event("$ev1");

    let mut room_events = RoomEvents::new();

    room_events.push_events(vec![event_0, event_1]);

    let position_of_event_1 = position_of(&room_events, &event_id_1);

    room_events.insert_gap_at(Gap { prev_token: "hello".to_owned() }, position_of_event_1).unwrap();

    assert_events_eq(room_events.events(), &[(&event_id_0, 0, 0), (&event_id_1, 2, 0)]);

    {
        let mut chunks = room_events.chunks().iter();

        let chunk = chunks.next().unwrap();
        assert!(chunk.is_items());

        let chunk = chunks.next().unwrap();
        assert!(chunk.is_gap());

        let chunk = chunks.next().unwrap();
        assert!(chunk.is_items());

        assert!(chunks.next().is_none());
    }
}

#[test]
fn test_replace_gap_at() {
    let (event_id_0, event_0) = new_event("$ev0");
    let (event_id_1, event_1) = new_event("$ev1");
    let (event_id_2, event_2) = new_event("$ev2");

    let mut room_events = RoomEvents::new();

    room_events.push_events(vec![event_0]);
    room_events.push_gap(Gap { prev_token: "hello".to_owned() }).unwrap();

    let chunk_identifier_of_gap = room_events
        .chunks()
        .iter()
        .find_map(|chunk| chunk.is_gap().then_some(chunk.identifier()))
        .unwrap();

    room_events.replace_gap_at(vec![event_1, event_2], chunk_identifier_of_gap).unwrap();

    assert_events_eq(
        room_events.events(),
        &[(&event_id_0, 0, 0), (&event_id_1, 2, 0), (&event_id_2, 2, 1)],
    );

    {
        let mut chunks = room_events.chunks().iter();

        let chunk = chunks.next().unwrap();
        assert!(chunk.is_items());

        let chunk = chunks.next().unwrap();
        assert!(chunk.is_items());

        assert!(chunks.next().is_none());
    }
}

#[test]
fn test_replace_gap_at_with_no_new_events() {
    let (_, event_0) = new_event("$ev0");
    let (_, event_1) = new_event("$ev1");
    let (_, event_2) = new_event("$ev2");

    let mut room_events = RoomEvents::new();

    room_events.push_events(vec![event_0, event_1]);
    room_events.push_gap(Gap { prev_token: "middle".to_owned() }).unwrap();
    room_events.push_events(vec![event_2]);
    room_events.push_gap(Gap { prev_token: "end".to_owned() }).unwrap();

    // Remove the first gap.
    let first_gap_id = room_events
        .chunks()
        .iter()
        .find_map(|chunk| chunk.is_gap().then_some(chunk.identifier()))
        .unwrap();

    // The next insert position is the next chunk's start.
    let pos = room_events.replace_gap_at(vec![], first_gap_id).unwrap();
    assert_eq!(pos, Some(Position::new(ChunkIdentifier::new(2), 0)));

    // Remove the second gap.
    let second_gap_id = room_events
        .chunks()
        .iter()
        .find_map(|chunk| chunk.is_gap().then_some(chunk.identifier()))
        .unwrap();

    // No next insert position.
    let pos = room_events.replace_gap_at(vec![], second_gap_id).unwrap();
    assert!(pos.is_none());
}

#[test]
fn test_remove_events() {
    let (event_id_0, event_0) = new_event("$ev0");
    let (event_id_1, event_1) = new_event("$ev1");
    let (event_id_2, event_2) = new_event("$ev2");
    let (event_id_3, event_3) = new_event("$ev3");

    // Push some events.
    let mut room_events = RoomEvents::new();
    room_events.push_events(vec![event_0, event_1]);
    room_events.push_gap(Gap { prev_token: "hello".to_owned() }).unwrap();
    room_events.push_events(vec![event_2, event_3]);

    assert_events_eq(
        room_events.events(),
        &[(&event_id_0, 0, 0), (&event_id_1, 0, 1), (&event_id_2, 2, 0), (&event_id_3, 2, 1)],
    );
    assert_eq!(room_events.chunks().len(), 3);

    // Remove some events.
    room_events.remove_events_by_id(vec![event_id_1.clone(), event_id_3.clone()]);

    assert_events_eq(room_events.events(), &[(&event_id_0, 0, 0), (&event_id_2, 2, 0)]);

    // Ensure chunks are removed once empty.
    room_events.remove_events_by_id(vec![event_id_2.clone()]);

    assert_events_eq(room_events.events(), &[(&event_id_0, 0, 0)]);
    assert_eq!(room_events.chunks().len(), 2);
}

#[test]
fn test_remove_events_unknown_event() {
    let (event_id_0, _event_0) = new_event("$ev0");

    // Push ZERO event.
    let mut room_events = RoomEvents::new();

    assert_events_eq(room_events.events(), &[]);

    // Remove one undefined event.
    // No error is expected.
    room_events.remove_events_by_id(vec![event_id_0]);

    assert_events_eq(room_events.events(), &[]);

    let events = room_events.events();
    assert!(events.is_empty());
}

#[test]
fn test_remove_events_and_update_insert_position() {
    let (event_id_0, event_0) = new_event("$ev0");
    let (event_id_1, event_1) = new_event("$ev1");
    let (event_id_2, event_2) = new_event("$ev2");
    let (event_id_3, event_3) = new_event("$ev3");
    let (event_id_4, event_4) = new_event("$ev4");
    let (event_id_5, event_5) = new_event("$ev5");
    let (event_id_6, event_6) = new_event("$ev6");
    let (event_id_7, event_7) = new_event("$ev7");
    let (event_id_8, event_8) = new_event("$ev8");

    // Push some events.
    let mut room_events = RoomEvents::new();
    room_events.push_events(vec![event_0, event_1, event_2, event_3, event_4, event_5, event_6]);
    room_events.push_gap(Gap { prev_token: "raclette".to_owned() }).unwrap();
    room_events.push_events(vec![event_7, event_8]);

    assert_eq!(room_events.chunks().len(), 3);

    // In the same chunk…
    {
        // Get the position of `event_4`.
        let mut position = position_of(&room_events, &event_id_4);

        // Remove one event BEFORE `event_4`.
        //
        // The position must move to the left by 1.
        {
            let previous_position = position;
            room_events.remove_events_and_update_insert_position(vec![event_id_0.clone()], &mut position);

            assert_eq!(previous_position.chunk_identifier(), position.chunk_identifier());
            assert_eq!(previous_position.index() - 1, position.index());

            // It still represents the position of `event_4`.
            assert_eq!(position, position_of(&room_events, &event_id_4));
        }

        // Remove one event AFTER `event_4`.
        //
        // The position must not move.
        {
            let previous_position = position;
            room_events.remove_events_and_update_insert_position(vec![event_id_5.clone()], &mut position);

            assert_eq!(previous_position.chunk_identifier(), position.chunk_identifier());
            assert_eq!(previous_position.index(), position.index());

            // It still represents the position of `event_4`.
            assert_eq!(position, position_of(&room_events, &event_id_4));
        }

        // Remove one event: `event_4`.
        //
        // The position must not move.
        {
            let previous_position = position;
            room_events.remove_events_and_update_insert_position(vec![event_id_4.clone()], &mut position);

            assert_eq!(previous_position.chunk_identifier(), position.chunk_identifier());
            assert_eq!(previous_position.index(), position.index());
        }

        // Check the events.
        assert_events_eq(
            room_events.events(),
            &[
                (&event_id_1, 0, 0),
                (&event_id_2, 0, 1),
                (&event_id_3, 0, 2),
                (&event_id_6, 0, 3),
                (&event_id_7, 2, 0),
                (&event_id_8, 2, 1),
            ],
        );
    }

    // In another chunk…
    {
        // Get the position of `event_7`.
        let mut position = position_of(&room_events, &event_id_7);

        // Remove one event BEFORE `event_7`.
        //
        // The position must not move because it happens in another chunk.
        {
            let previous_position = position;
            room_events.remove_events_and_update_insert_position(vec![event_id_1.clone()], &mut position);

            assert_eq!(previous_position.chunk_identifier(), position.chunk_identifier());
            assert_eq!(previous_position.index(), position.index());

            // It still represents the position of `event_7`.
            assert_eq!(position, position_of(&room_events, &event_id_7));
        }

        // Check the events.
        assert_events_eq(
            room_events.events(),
            &[
                (&event_id_2, 0, 0),
                (&event_id_3, 0, 1),
                (&event_id_6, 0, 2),
                (&event_id_7, 2, 0),
                (&event_id_8, 2, 1),
            ],
        );
    }

    // In the same chunk, but remove multiple events, just for the fun and to ensure
    // the loop works correctly.
    {
        // Get the position of `event_6`.
        let mut position = position_of(&room_events, &event_id_6);

        // Remove three events BEFORE `event_6`.
        //
        // The position must move.
        {
            let previous_position = position;
            room_events.remove_events_and_update_insert_position(
                vec![event_id_2.clone(), event_id_3.clone(), event_id_7.clone(), event_id_8.clone()],
                &mut position,
            );

            assert_eq!(previous_position.chunk_identifier(), position.chunk_identifier());
            assert_eq!(previous_position.index() - 2, position.index());

            // It still represents the position of `event_6`.
            assert_eq!(position, position_of(&room_events, &event_id_6));
        }

        // Check the events.
        assert_events_eq(room_events.events(), &[(&event_id_6, 0, 0)]);
    }

    // Ensure no chunk has been removed.
    assert_eq!(room_events.chunks().len(), 3);
}

#[test]
fn test_reset() {
    let (event_id_0, event_0) = new_event("$ev0");
    let (event_id_1, event_1) = new_event("$ev1");
    let (event_id_2, event_2) = new_event("$ev2");
    let (event_id_3, event_3) = new_event("$ev3");

    // Push some events.
    let mut room_events = RoomEvents::new();
    room_events.push_events(vec![event_0, event_1]);
    room_events.push_gap(Gap { prev_token: "raclette".to_owned() }).unwrap();
    room_events.push_events(vec![event_2]);

    // Read the updates as `VectorDiff`.
    let diffs = room_events.updates_as_vector_diffs();

    assert_eq!(diffs.len(), 2);

    match &diffs[0] {
        VectorDiff::Append { values } => {
            assert_eq!(values.len(), 2);
            assert_eq!(values[0].event_id(), Some(event_id_0));
            assert_eq!(values[1].event_id(), Some(event_id_1));
        }
        _ => panic!("expected an Append"),
    }
    match &diffs[1] {
        VectorDiff::Append { values } => {
            assert_eq!(values.len(), 1);
            assert_eq!(values[0].event_id(), Some(event_id_2));
        }
        _ => panic!("expected an Append"),
    }

    // Now we can reset and see what happens.
    room_events.reset();
    room_events.push_events(vec![event_3]);

    // Read the updates as `VectorDiff`.
    let diffs = room_events.updates_as_vector_diffs();

    assert_eq!(diffs.len(), 2);

    assert!(matches!(&diffs[0], VectorDiff::Clear));
    match &diffs[1] {
        VectorDiff::Append { values } => {
            assert_eq!(values.len(), 1);
            assert_eq!(values[0].event_id(), Some(event_id_3));
        }
        _ => panic!("expected an Append"),
    }
}
