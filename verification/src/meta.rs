//! Vendor metadata records, in a borrowing and an owning variant.

use vstd::prelude::*;

verus! {

/// Vendor metadata attached to a prefix: a required short name, an optional
/// long name, an optional comment. `S` is `&str` for records borrowing from
/// the source text and `String` for owning records.
#[derive(Debug, Clone, PartialEq, Eq)]
pub struct OuiMeta<S> {
    pub short: S,
    pub long: Option<S>,
    pub comment: Option<S>,
}

/// The mathematical model of a metadata record: its three texts.
#[verifier::ext_equal]
pub struct MetaView {
    pub short: Seq<char>,
    pub long: Option<Seq<char>>,
    pub comment: Option<Seq<char>>,
}

impl View for OuiMeta<String> {
    type V = MetaView;

    open spec fn view(&self) -> MetaView {
        MetaView {
            short: self.short@,
            long: match self.long {
                Some(s) => Some(s@),
                None => None,
            },
            comment: match self.comment {
                Some(s) => Some(s@),
                None => None,
            },
        }
    }
}

impl<'a> View for OuiMeta<&'a str> {
    type V = MetaView;

    open spec fn view(&self) -> MetaView {
        MetaView {
            short: self.short@,
            long: match self.long {
                Some(s) => Some(s@),
                None => None,
            },
            comment: match self.comment {
                Some(s) => Some(s@),
                None => None,
            },
        }
    }
}

impl<S> OuiMeta<S> {
    /// Assemble a record from its parts.
    pub fn new(short: S, long: Option<S>, comment: Option<S>) -> (r: OuiMeta<S>)
        ensures
            r.short == short,
            r.long == long,
            r.comment == comment,
    {
        OuiMeta { short, long, comment }
    }

    /// The required short vendor name.
    pub fn manuf(&self) -> (r: &S)
        ensures
            *r == self.short,
    {
        &self.short
    }

    /// The optional long vendor name.
    pub fn manuf_long(&self) -> (r: Option<&S>)
        ensures
            r is Some <==> self.long is Some,
            r is Some ==> *r->0 == self.long->0,
    {
        self.long.as_ref()
    }

    /// The optional comment.
    pub fn comment(&self) -> (r: Option<&S>)
        ensures
            r is Some <==> self.comment is Some,
            r is Some ==> *r->0 == self.comment->0,
    {
        self.comment.as_ref()
    }
}

impl<'a> OuiMeta<&'a str> {
    /// An owning copy of a borrowing record.
    pub fn to_owned(&self) -> (r: OuiMeta<String>)
        ensures
            r@ == self@,
    {
        let r = OuiMeta {
            short: self.short.to_owned(),
            long: match self.long {
                Some(s) => Some(s.to_owned()),
                None => None,
            },
            comment: match self.comment {
                Some(s) => Some(s.to_owned()),
                None => None,
            },
        };
        proof {
            assert(r@ =~= self@);
        }
        r
    }
}

impl OuiMeta<String> {
    /// A borrowing view of an owning record.
    pub fn as_ref(&self) -> (r: OuiMeta<&str>)
        ensures
            r@ == self@,
    {
        let r = OuiMeta {
            short: self.short.as_str(),
            long: match &self.long {
                Some(s) => Some(s.as_str()),
                None => None,
            },
            comment: match &self.comment {
                Some(s) => Some(s.as_str()),
                None => None,
            },
        };
        proof {
            assert(r@ =~= self@);
        }
        r
    }
}

} // verus!
