//! What will happen to one key at the next flush, and how a new insert or
//! delete on that key merges into it.
use vstd::prelude::*;

verus! {

/// The pending change of one key.
#[derive(Clone, Debug, PartialEq, Eq)]
pub enum FlushStatus {
    /// The row is new and not yet known to storage.
    Insert(String),
    /// The row is (or is assumed to be) in storage and must be removed.
    Delete,
    /// The row is known to be present, with this current value.
    DeleteInsert(String),
}

/// The pending change of one key, over mathematical strings.
pub enum StatusView {
    Insert(Seq<char>),
    Delete,
    DeleteInsert(Seq<char>),
}

impl View for FlushStatus {
    type V = StatusView;

    open spec fn view(&self) -> StatusView {
        match self {
            FlushStatus::Insert(v) => StatusView::Insert(v@),
            FlushStatus::Delete => StatusView::Delete,
            FlushStatus::DeleteInsert(v) => StatusView::DeleteInsert(v@),
        }
    }
}

/// The status after inserting value `v` over `existing`.
pub open spec fn merge_insert(existing: Option<StatusView>, v: Seq<char>) -> StatusView {
    match existing {
        None => StatusView::Insert(v),
        Some(StatusView::Delete) => StatusView::DeleteInsert(v),
        Some(StatusView::Insert(_)) => StatusView::Insert(v),
        Some(StatusView::DeleteInsert(_)) => StatusView::DeleteInsert(v),
    }
}

/// The status after deleting over `existing`; `None` removes the entry.
pub open spec fn merge_delete(existing: Option<StatusView>) -> Option<StatusView> {
    match existing {
        None => Some(StatusView::Delete),
        Some(StatusView::Insert(_)) => None,
        Some(StatusView::Delete) => Some(StatusView::Delete),
        Some(StatusView::DeleteInsert(_)) => Some(StatusView::Delete),
    }
}

/// The value that the key holds once the change is applied, if any.
pub open spec fn present_value(s: StatusView) -> Option<Seq<char>> {
    match s {
        StatusView::Insert(v) => Some(v),
        StatusView::Delete => None,
        StatusView::DeleteInsert(v) => Some(v),
    }
}

impl FlushStatus {
    /// Merges an insert of `value` over `existing`.
    pub fn do_insert(existing: Option<&FlushStatus>, value: String) -> (r: FlushStatus)
        ensures
            r@ == merge_insert(
                match existing {
                    Some(e) => Some(e@),
                    None => None,
                },
                value@,
            ),
    {
        match existing {
            None => FlushStatus::Insert(value),
            Some(FlushStatus::Delete) => FlushStatus::DeleteInsert(value),
            Some(FlushStatus::Insert(_)) => FlushStatus::Insert(value),
            Some(FlushStatus::DeleteInsert(_)) => FlushStatus::DeleteInsert(value),
        }
    }

    /// Merges a delete over `existing`; `None` means the entry goes away.
    pub fn do_delete(existing: Option<&FlushStatus>) -> (r: Option<FlushStatus>)
        ensures
            match r {
                Some(s) => merge_delete(
                    match existing {
                        Some(e) => Some(e@),
                        None => None,
                    },
                ) == Some(s@),
                None => merge_delete(
                    match existing {
                        Some(e) => Some(e@),
                        None => None,
                    },
                ) is None,
            },
    {
        match existing {
            None => Some(FlushStatus::Delete),
            Some(FlushStatus::Insert(_)) => None,
            Some(FlushStatus::Delete) => Some(FlushStatus::Delete),
            Some(FlushStatus::DeleteInsert(_)) => Some(FlushStatus::Delete),
        }
    }

    /// The value the key holds once the change is applied.
    pub fn as_option(&self) -> (r: Option<&String>)
        ensures
            match r {
                Some(v) => present_value(self@) == Some(v@),
                None => present_value(self@) is None,
            },
    {
        match self {
            FlushStatus::Insert(v) => Some(v),
            FlushStatus::Delete => None,
            FlushStatus::DeleteInsert(v) => Some(v),
        }
    }
}

} // verus!
