use dandrum_engine::event_queue::event_matches_note;
use dandrum_engine::event_queue::{
    BlockEvent, BoundedEventQueue, CompiledEventEdge, EventQueueId, EventQueueOverflow, EventWriter,
    PreparedEventQueues, ScriptEvent,
};

fn silent() -> BlockEvent {
    BlockEvent {
        frame_offset: 0,
        event: ScriptEvent::NoteOn {
            note: 0,
            velocity: 0,
        },
    }
}

#[test]
fn bounded_event_queue_reports_overflow_without_growing_capacity() {
    let mut queue = BoundedEventQueue::with_capacity(1);
    let event = ScriptEvent::NoteOn {
        note: 60,
        velocity: 100,
    };

    assert_eq!(queue.push(event.clone()), Ok(()));
    assert_eq!(
        queue.push(event),
        Err(EventQueueOverflow { dropped_events: 1 })
    );
    assert_eq!(queue.capacity(), 1);
    assert_eq!(queue.dropped_events(), 1);
}

#[test]
fn bounded_event_queue_drains_script_events_as_block_events() {
    let mut queue = BoundedEventQueue::with_capacity(2);
    queue
        .push(ScriptEvent::NoteOn {
            note: 60,
            velocity: 100,
        })
        .unwrap();
    queue.push(ScriptEvent::NoteOff { note: 60 }).unwrap();

    let events = queue.drain_block_events();

    assert!(queue.is_empty());
    assert_eq!(events.len(), 2);
    assert_eq!(events[0].frame_offset, 0);
    assert_eq!(events[1].frame_offset, 0);
}

#[test]
fn drain_into_buffer_writes_up_to_buffer_capacity_and_reports_overflow() {
    let mut queue = BoundedEventQueue::with_capacity(4);
    queue
        .push(ScriptEvent::NoteOn {
            note: 60,
            velocity: 100,
        })
        .unwrap();
    queue
        .push(ScriptEvent::NoteOn {
            note: 61,
            velocity: 90,
        })
        .unwrap();
    queue
        .push(ScriptEvent::NoteOn {
            note: 62,
            velocity: 80,
        })
        .unwrap();

    let mut buf = vec![silent(); 2];
    let count = queue.drain_into_buffer(&mut buf);

    assert_eq!(count, 2);
    assert_eq!(
        buf[0].event,
        ScriptEvent::NoteOn {
            note: 60,
            velocity: 100
        }
    );
    assert_eq!(
        buf[1].event,
        ScriptEvent::NoteOn {
            note: 61,
            velocity: 90
        }
    );
    assert!(queue.is_empty());
    assert_eq!(queue.dropped_events(), 1);
}

#[test]
fn drain_into_buffer_handles_empty_queue() {
    let mut queue = BoundedEventQueue::with_capacity(4);
    let mut buf = vec![silent(); 2];
    let count = queue.drain_into_buffer(&mut buf);

    assert_eq!(count, 0);
    assert_eq!(queue.dropped_events(), 0);
}

#[test]
fn event_writer_writes_to_underlying_queue_and_tracks_dropped() {
    let mut queue = BoundedEventQueue::with_capacity(2);
    let mut writer = EventWriter::new(&mut queue);

    assert_eq!(
        writer.write(ScriptEvent::NoteOn {
            note: 60,
            velocity: 100
        }),
        Ok(())
    );
    assert_eq!(writer.write(ScriptEvent::NoteOff { note: 60 }), Ok(()));
    assert_eq!(
        writer.write(ScriptEvent::NoteOn {
            note: 62,
            velocity: 90
        }),
        Err(EventQueueOverflow { dropped_events: 1 })
    );
    assert_eq!(writer.dropped_events(), 1);
}

#[test]
fn prepared_event_queues_allocates_requested_queues() {
    let mut queues = PreparedEventQueues::new(3, 8);

    assert_eq!(queues.queue_count(), 3);
    assert_eq!(queues.capacity_per_queue(), 8);
    assert!(queues.queue(0).is_some());
    assert!(queues.queue(1).is_some());
    assert!(queues.queue(2).is_some());
    assert!(queues.queue(3).is_none());
}

#[test]
fn prepared_event_queues_writer_routes_to_correct_queue() {
    let mut queues = PreparedEventQueues::new(2, 4);
    {
        let mut writer = queues.writer(1).expect("queue 1 should exist");
        writer
            .write(ScriptEvent::NoteOn {
                note: 60,
                velocity: 100,
            })
            .unwrap();
    }
    assert!(!queues.queue(1).unwrap().is_empty());
    assert!(queues.queue(0).unwrap().is_empty());
}

#[test]
fn prepared_event_queues_route_compiled_event_edge_by_queue_id() {
    let mut queues = PreparedEventQueues::new(2, 4);
    {
        let mut writer = queues.writer(0).unwrap();
        writer
            .write(ScriptEvent::NoteOn {
                note: 60,
                velocity: 100,
            })
            .unwrap();
    }

    queues
        .route_event_edge(CompiledEventEdge {
            source: EventQueueId(0),
            destination: EventQueueId(1),
        })
        .unwrap();

    assert!(!queues.queue(0).unwrap().is_empty());
    assert!(!queues.queue(1).unwrap().is_empty());
}

#[test]
fn prepared_event_queues_revert_restores_events() {
    let mut queues = PreparedEventQueues::new(2, 8);
    {
        let mut writer = queues.writer(0).unwrap();
        writer
            .write(ScriptEvent::NoteOn {
                note: 60,
                velocity: 100,
            })
            .unwrap();
    }

    let events = vec![(0, vec![ScriptEvent::NoteOff { note: 60 }])];
    queues.revert(events);

    let mut buf = vec![silent(); 4];
    let count = queues.queue(0).unwrap().drain_into_buffer(&mut buf);
    assert_eq!(count, 2);
}

#[test]
fn queue_keeps_first_in_first_out_order() {
    let mut queue = BoundedEventQueue::with_capacity(3);
    queue.push(ScriptEvent::NoteOn { note: 1, velocity: 10 }).unwrap();
    queue.push(ScriptEvent::NoteOff { note: 1 }).unwrap();
    queue.push(ScriptEvent::NoteOn { note: 2, velocity: 20 }).unwrap();
    assert_eq!(queue.len(), 3);
    assert_eq!(queue.event(0), ScriptEvent::NoteOn { note: 1, velocity: 10 });
    assert_eq!(queue.event(2), ScriptEvent::NoteOn { note: 2, velocity: 20 });
    let drained = queue.drain_block_events();
    assert_eq!(drained[1].event, ScriptEvent::NoteOff { note: 1 });
    assert_eq!(queue.len(), 0);
}

#[test]
fn dropped_events_accumulate_across_overflows() {
    let mut queue = BoundedEventQueue::with_capacity(0);
    let event = ScriptEvent::NoteOff { note: 9 };
    assert_eq!(queue.push(event), Err(EventQueueOverflow { dropped_events: 1 }));
    assert_eq!(queue.push(event), Err(EventQueueOverflow { dropped_events: 2 }));
    assert_eq!(queue.dropped_events(), 2);
    assert!(queue.is_empty());
}

#[test]
fn default_queue_holds_sixty_four_events() {
    let queue = BoundedEventQueue::default();
    assert_eq!(queue.capacity(), 64);
    assert!(queue.is_empty());
}

#[test]
fn push_all_keeps_what_fits_and_counts_the_rest() {
    let mut queue = BoundedEventQueue::with_capacity(2);
    let events = vec![
        ScriptEvent::NoteOff { note: 1 },
        ScriptEvent::NoteOff { note: 2 },
        ScriptEvent::NoteOff { note: 3 },
    ];
    queue.push_all(&events);
    assert_eq!(queue.len(), 2);
    assert_eq!(queue.dropped_events(), 1);
    assert_eq!(queue.event(1), ScriptEvent::NoteOff { note: 2 });
}

#[test]
fn routing_into_a_full_queue_reports_overflow() {
    let mut queues = PreparedEventQueues::new(2, 1);
    queues.queue(0).unwrap().push(ScriptEvent::NoteOff { note: 5 }).unwrap();
    queues.queue(1).unwrap().push(ScriptEvent::NoteOff { note: 6 }).unwrap();
    let result = queues.route_event_edge(CompiledEventEdge {
        source: EventQueueId(0),
        destination: EventQueueId(1),
    });
    assert_eq!(result, Err(EventQueueOverflow { dropped_events: 1 }));
    assert_eq!(queues.queue(1).unwrap().len(), 1);
}

#[test]
fn writer_for_a_missing_queue_is_none() {
    let mut queues = PreparedEventQueues::new(1, 4);
    assert!(queues.writer(1).is_none());
}

#[test]
fn events_match_the_expected_note_or_any_note() {
    let on = BlockEvent { frame_offset: 3, event: ScriptEvent::NoteOn { note: 60, velocity: 100 } };
    let off = BlockEvent { frame_offset: 0, event: ScriptEvent::NoteOff { note: 61 } };
    assert!(event_matches_note(&on, None));
    assert!(event_matches_note(&on, Some(60)));
    assert!(!event_matches_note(&on, Some(61)));
    assert!(event_matches_note(&off, Some(61)));
    assert!(!event_matches_note(&off, Some(60)));
}
