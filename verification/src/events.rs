//! Change notifications emitted when the graph changes, and the FIFO
//! queue that buffers them for polling callers.

use vstd::prelude::*;

verus! {

/// Spec-level shape of a graph event: the variant and the page names it
/// carries, with strings as character sequences.
pub enum EventV {
    /// A page was created.
    PageCreated { name: Seq<char> },
    /// An existing page was updated.
    PageUpdated { name: Seq<char> },
    /// A page was deleted.
    PageDeleted { name: Seq<char> },
    /// A link appeared between two pages.
    LinkCreated { from: Seq<char>, to: Seq<char> },
    /// A link between two pages went away.
    LinkRemoved { from: Seq<char>, to: Seq<char> },
}

/// Events emitted when the graph changes, produced by store updates and
/// by the file watcher, and consumed at most once per queue drain.
#[derive(Clone, Debug, PartialEq)]
pub enum GraphEvent {
    /// A page was created.
    PageCreated { name: String },
    /// An existing page was updated.
    PageUpdated { name: String },
    /// A page was deleted.
    PageDeleted { name: String },
    /// A link appeared between two pages.
    LinkCreated { from: String, to: String },
    /// A link between two pages went away.
    LinkRemoved { from: String, to: String },
}

impl View for GraphEvent {
    type V = EventV;

    open spec fn view(&self) -> EventV {
        match self {
            GraphEvent::PageCreated { name } => EventV::PageCreated { name: name@ },
            GraphEvent::PageUpdated { name } => EventV::PageUpdated { name: name@ },
            GraphEvent::PageDeleted { name } => EventV::PageDeleted { name: name@ },
            GraphEvent::LinkCreated { from, to } => EventV::LinkCreated {
                from: from@,
                to: to@,
            },
            GraphEvent::LinkRemoved { from, to } => EventV::LinkRemoved {
                from: from@,
                to: to@,
            },
        }
    }
}

impl DeepView for GraphEvent {
    type V = EventV;

    open spec fn deep_view(&self) -> EventV {
        self.view()
    }
}

/// Short label naming an event's variant.
pub open spec fn type_label(e: EventV) -> Seq<char> {
    match e {
        EventV::PageCreated { .. } => "page_created"@,
        EventV::PageUpdated { .. } => "page_updated"@,
        EventV::PageDeleted { .. } => "page_deleted"@,
        EventV::LinkCreated { .. } => "link_created"@,
        EventV::LinkRemoved { .. } => "link_removed"@,
    }
}

/// The page name carried by a page event; nothing for link events.
pub open spec fn page_name_of(e: EventV) -> Option<Seq<char>> {
    match e {
        EventV::PageCreated { name } => Some(name),
        EventV::PageUpdated { name } => Some(name),
        EventV::PageDeleted { name } => Some(name),
        _ => None,
    }
}

/// The source page of a link event; nothing for page events.
pub open spec fn link_from_of(e: EventV) -> Option<Seq<char>> {
    match e {
        EventV::LinkCreated { from, .. } => Some(from),
        EventV::LinkRemoved { from, .. } => Some(from),
        _ => None,
    }
}

/// The target page of a link event; nothing for page events.
pub open spec fn link_to_of(e: EventV) -> Option<Seq<char>> {
    match e {
        EventV::LinkCreated { to, .. } => Some(to),
        EventV::LinkRemoved { to, .. } => Some(to),
        _ => None,
    }
}

/// Readable rendering of an event, naming its variant and its pages.
pub open spec fn repr_text(e: EventV) -> Seq<char> {
    match e {
        EventV::PageCreated { name } => "GraphEvent.PageCreated('"@ + name + "')"@,
        EventV::PageUpdated { name } => "GraphEvent.PageUpdated('"@ + name + "')"@,
        EventV::PageDeleted { name } => "GraphEvent.PageDeleted('"@ + name + "')"@,
        EventV::LinkCreated { from, to } => "GraphEvent.LinkCreated('"@ + from + "' -> '"@ + to
            + "')"@,
        EventV::LinkRemoved { from, to } => "GraphEvent.LinkRemoved('"@ + from + "' -> '"@ + to
            + "')"@,
    }
}

impl GraphEvent {
    /// The event's variant as a short label.
    pub fn event_type(&self) -> (r: &'static str)
        ensures
            r@ == type_label(self@),
    {
        match self {
            GraphEvent::PageCreated { .. } => "page_created",
            GraphEvent::PageUpdated { .. } => "page_updated",
            GraphEvent::PageDeleted { .. } => "page_deleted",
            GraphEvent::LinkCreated { .. } => "link_created",
            GraphEvent::LinkRemoved { .. } => "link_removed",
        }
    }

    /// The page name for page events; nothing for link events.
    pub fn page_name(&self) -> (r: Option<String>)
        ensures
            r.deep_view() == page_name_of(self@),
    {
        match self {
            GraphEvent::PageCreated { name } => Some(name.clone()),
            GraphEvent::PageUpdated { name } => Some(name.clone()),
            GraphEvent::PageDeleted { name } => Some(name.clone()),
            _ => None,
        }
    }

    /// The source page for link events; nothing for page events.
    pub fn link_from(&self) -> (r: Option<String>)
        ensures
            r.deep_view() == link_from_of(self@),
    {
        match self {
            GraphEvent::LinkCreated { from, .. } => Some(from.clone()),
            GraphEvent::LinkRemoved { from, .. } => Some(from.clone()),
            _ => None,
        }
    }

    /// The target page for link events; nothing for page events.
    pub fn link_to(&self) -> (r: Option<String>)
        ensures
            r.deep_view() == link_to_of(self@),
    {
        match self {
            GraphEvent::LinkCreated { to, .. } => Some(to.clone()),
            GraphEvent::LinkRemoved { to, .. } => Some(to.clone()),
            _ => None,
        }
    }

    /// Render the event as readable text.
    pub fn repr(&self) -> (r: String)
        ensures
            r@ == repr_text(self@),
    {
        match self {
            GraphEvent::PageCreated { name } => {
                let mut s = String::from_str("GraphEvent.PageCreated('");
                s.append(name.as_str());
                s.append("')");
                s
            },
            GraphEvent::PageUpdated { name } => {
                let mut s = String::from_str("GraphEvent.PageUpdated('");
                s.append(name.as_str());
                s.append("')");
                s
            },
            GraphEvent::PageDeleted { name } => {
                let mut s = String::from_str("GraphEvent.PageDeleted('");
                s.append(name.as_str());
                s.append("')");
                s
            },
            GraphEvent::LinkCreated { from, to } => {
                let mut s = String::from_str("GraphEvent.LinkCreated('");
                s.append(from.as_str());
                s.append("' -> '");
                s.append(to.as_str());
                s.append("')");
                s
            },
            GraphEvent::LinkRemoved { from, to } => {
                let mut s = String::from_str("GraphEvent.LinkRemoved('");
                s.append(from.as_str());
                s.append("' -> '");
                s.append(to.as_str());
                s.append("')");
                s
            },
        }
    }
}

/// FIFO buffer for change notifications.
///
/// Events are appended in call order and handed out exactly once: a
/// drain returns the whole buffered sequence and empties the buffer, so
/// no event is duplicated or dropped across a push/drain boundary.
/// Callers that share one queue between a producing watcher and
/// polling consumers serialize access through their own exclusive
/// lock.
#[derive(Debug)]
pub struct EventQueue {
    events: Vec<GraphEvent>,
}

impl View for EventQueue {
    type V = Seq<GraphEvent>;

    closed spec fn view(&self) -> Seq<GraphEvent> {
        self.events@
    }
}

impl EventQueue {
    /// Create an empty queue.
    pub fn new() -> (r: Self)
        ensures
            r@ == Seq::<GraphEvent>::empty(),
    {
        Self { events: Vec::new() }
    }

    /// Append one event at the back of the queue.
    pub fn push(&mut self, event: GraphEvent)
        ensures
            final(self)@ == old(self)@.push(event),
    {
        self.events.push(event);
    }

    /// Append several events at the back of the queue, in order.
    pub fn push_all(&mut self, events: Vec<GraphEvent>)
        ensures
            final(self)@ == old(self)@ + events@,
    {
        let mut incoming = events;
        self.events.append(&mut incoming);
    }

    /// Hand out every buffered event, in push order, and empty the
    /// queue: each event is delivered exactly once, and a later drain
    /// cannot return it again.
    pub fn drain_all(&mut self) -> (r: Vec<GraphEvent>)
        ensures
            r@ == old(self)@,
            final(self)@ == Seq::<GraphEvent>::empty(),
    {
        let mut out: Vec<GraphEvent> = Vec::new();
        core::mem::swap(&mut out, &mut self.events);
        out
    }

    /// Whether the queue holds no events.
    pub fn is_empty(&self) -> (r: bool)
        ensures
            r == (self@.len() == 0),
    {
        self.events.is_empty()
    }

    /// Number of buffered events.
    pub fn len(&self) -> (r: usize)
        ensures
            r == self@.len(),
    {
        self.events.len()
    }
}

impl Default for EventQueue {
    /// The default queue is empty.
    fn default() -> (r: Self)
        ensures
            r@ == Seq::<GraphEvent>::empty(),
    {
        Self::new()
    }
}

} // verus!
