//! The record and page model shared by every component.
//!
//! A record carries an epoch-derived timestamp, its text, and the time the
//! upstream ingested it. A page is one bounded response window from the
//! paginated retrieval API: an ordered run of records plus the forward and
//! backward continuation tokens the upstream handed back.

use vstd::prelude::*;

verus! {

/// The mathematical model of a [`Record`]: the same three fields over `int`
/// and `Seq<char>`.
pub struct RecordModel {
    pub timestamp: int,
    pub text: Seq<char>,
    pub ingested_at: int,
}

/// One log record as received from the upstream API. Records are never
/// deduplicated; ordering is by `timestamp`, ties broken by arrival order.
#[derive(Debug, Clone, PartialEq)]
pub struct Record {
    pub timestamp: i64,
    pub text: String,
    pub ingested_at: i64,
}

impl View for Record {
    type V = RecordModel;

    open spec fn view(&self) -> RecordModel {
        RecordModel {
            timestamp: self.timestamp as int,
            text: self.text@,
            ingested_at: self.ingested_at as int,
        }
    }
}

impl DeepView for Record {
    type V = RecordModel;

    open spec fn deep_view(&self) -> RecordModel {
        self.view()
    }
}

/// The mathematical model of a [`Page`].
pub struct PageModel {
    pub records: Seq<RecordModel>,
    pub forward_token: Seq<char>,
    pub backward_token: Seq<char>,
}

/// One response window from the paginated retrieval API. A page with zero
/// records is a well-formed terminal signal, not an error.
pub struct Page {
    pub records: Vec<Record>,
    pub forward_token: String,
    pub backward_token: String,
}

impl View for Page {
    type V = PageModel;

    open spec fn view(&self) -> PageModel {
        PageModel {
            records: self.records.deep_view(),
            forward_token: self.forward_token@,
            backward_token: self.backward_token@,
        }
    }
}

impl DeepView for Page {
    type V = PageModel;

    open spec fn deep_view(&self) -> PageModel {
        self.view()
    }
}

/// True when the collection name begins with the path-separator prefix the
/// upstream convention reserves; such an identity is rejected before any
/// request is issued.
pub open spec fn has_reserved_prefix(name: Seq<char>) -> bool {
    name.len() > 0 && name[0] == '/'
}

/// Checks a collection name against the reserved upstream prefix. The group
/// is unconstrained; only the name carries the convention.
pub fn validate_collection_name(name: &str) -> (r: bool)
    ensures
        r <==> !has_reserved_prefix(name@),
{
    if name.unicode_len() == 0 {
        true
    } else {
        let c = name.get_char(0);
        c != '/'
    }
}

} // verus!
