use vstd::prelude::*;

verus! {

/// One broker record as it crosses the guest boundary.
#[derive(Debug)]
pub struct FlowRecord {
    pub key: Option<Vec<u8>>,
    pub value: Option<Vec<u8>>,
    /// Header name and value pairs, duplicates allowed, order kept.
    pub headers: Vec<(String, Vec<u8>)>,
    pub topic: String,
    pub partition: i32,
    pub offset: i64,
    /// Seconds since the Unix epoch, `-1` when unknown.
    pub timestamp: i64,
}

/// The mathematical value of a `FlowRecord`.
pub struct RecordView {
    pub key: Option<Seq<u8>>,
    pub value: Option<Seq<u8>>,
    pub headers: Seq<(Seq<char>, Seq<u8>)>,
    pub topic: Seq<char>,
    pub partition: i32,
    pub offset: i64,
    pub timestamp: i64,
}

pub open spec fn opt_bytes_view(o: Option<Vec<u8>>) -> Option<Seq<u8>> {
    match o {
        Some(v) => Some(v@),
        None => None,
    }
}

pub open spec fn headers_view(h: Seq<(String, Vec<u8>)>) -> Seq<(Seq<char>, Seq<u8>)> {
    Seq::new(h.len(), |i: int| (h[i].0@, h[i].1@))
}

impl View for FlowRecord {
    type V = RecordView;

    open spec fn view(&self) -> RecordView {
        RecordView {
            key: opt_bytes_view(self.key),
            value: opt_bytes_view(self.value),
            headers: headers_view(self.headers@),
            topic: self.topic@,
            partition: self.partition,
            offset: self.offset,
            timestamp: self.timestamp,
        }
    }
}

} // verus!
