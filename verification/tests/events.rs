use graph_core::events::{EventQueue, GraphEvent};

#[test]
fn test_event_queue_push_and_drain() {
    let mut queue = EventQueue::new();
    queue.push(GraphEvent::PageCreated {
        name: "Test".to_string(),
    });
    queue.push(GraphEvent::PageUpdated {
        name: "Test".to_string(),
    });

    assert_eq!(queue.len(), 2);
    assert!(!queue.is_empty());

    let events = queue.drain_all();
    assert_eq!(events.len(), 2);
    assert!(queue.is_empty());
}

#[test]
fn test_event_queue_push_all() {
    let mut queue = EventQueue::new();
    queue.push_all(vec![
        GraphEvent::PageCreated {
            name: "A".to_string(),
        },
        GraphEvent::PageCreated {
            name: "B".to_string(),
        },
        GraphEvent::PageCreated {
            name: "C".to_string(),
        },
    ]);

    assert_eq!(queue.len(), 3);
}

#[test]
fn test_graph_event_type() {
    let event = GraphEvent::PageCreated {
        name: "Test".to_string(),
    };
    assert_eq!(event.event_type(), "page_created");
    assert_eq!(event.page_name(), Some("Test".to_string()));
    assert_eq!(event.link_from(), None);
    assert_eq!(event.link_to(), None);

    let link_event = GraphEvent::LinkCreated {
        from: "A".to_string(),
        to: "B".to_string(),
    };
    assert_eq!(link_event.event_type(), "link_created");
    assert_eq!(link_event.page_name(), None);
    assert_eq!(link_event.link_from(), Some("A".to_string()));
    assert_eq!(link_event.link_to(), Some("B".to_string()));
}

#[test]
fn test_graph_event_repr() {
    let event = GraphEvent::PageCreated {
        name: "Test".to_string(),
    };
    assert!(event.repr().contains("PageCreated"));
    assert!(event.repr().contains("Test"));

    let link_event = GraphEvent::LinkCreated {
        from: "A".to_string(),
        to: "B".to_string(),
    };
    assert!(link_event.repr().contains("LinkCreated"));
    assert!(link_event.repr().contains("A"));
    assert!(link_event.repr().contains("B"));
}

#[test]
fn test_event_queue_drain_delivers_once_in_order() {
    let mut queue = EventQueue::new();
    queue.push(GraphEvent::PageCreated {
        name: "First".to_string(),
    });
    queue.push_all(vec![
        GraphEvent::PageUpdated {
            name: "Second".to_string(),
        },
        GraphEvent::PageDeleted {
            name: "Third".to_string(),
        },
    ]);

    let events = queue.drain_all();
    assert_eq!(
        events,
        vec![
            GraphEvent::PageCreated {
                name: "First".to_string()
            },
            GraphEvent::PageUpdated {
                name: "Second".to_string()
            },
            GraphEvent::PageDeleted {
                name: "Third".to_string()
            },
        ]
    );

    let again = queue.drain_all();
    assert!(again.is_empty());
}
