//! The tracker's address: an absolute URL, held in the parts that building
//! an announce request needs.

use vstd::prelude::*;
use vstd::string::StringExecFns;

verus! {

/// An absolute URL, cut where a query is put in: everything up to the end
/// of the path, the query without its `?` if there is one, and the fragment
/// without its `#` if there is one.
#[derive(Debug, PartialEq, Eq)]
pub struct AnnounceUrl {
    pub head: String,
    pub query: Option<String>,
    pub fragment: Option<String>,
}

/// An `AnnounceUrl` as plain values.
pub struct UrlParts {
    pub head: Seq<char>,
    pub query: Option<Seq<char>>,
    pub fragment: Option<Seq<char>>,
}

/// What the `url` crate makes of `text`: nothing where `text` is no
/// absolute URL, else the parts of the URL as the crate writes it out.
pub uninterp spec fn parsed_url(text: Seq<char>) -> Option<UrlParts>;

/// Calls `url::Url::parse` and takes the result apart with the crate's
/// `Position::AfterPath`, `query` and `fragment`. The contract claims that
/// whether `text` is accepted, and the parts that come back, depend on
/// `text` alone.
#[verifier::external_body]
pub(crate) fn parse_url(text: &str) -> (r: Option<AnnounceUrl>)
    ensures
        r.is_some() == parsed_url(text@).is_some(),
        r matches Some(url) ==> url@ == parsed_url(text@).unwrap(),
{
    match url::Url::parse(text) {
        Ok(url) => Some(
            AnnounceUrl {
                head: url[..url::Position::AfterPath].to_string(),
                query: url.query().map(|q| q.to_string()),
                fragment: url.fragment().map(|f| f.to_string()),
            },
        ),
        Err(_) => None,
    }
}

/// The URL written out: the head, the query after a `?`, the fragment
/// after a `#`.
pub open spec fn url_text(url: UrlParts) -> Seq<char> {
    url.head + (match url.query {
        Some(q) => "?"@ + q,
        None => Seq::empty(),
    }) + (match url.fragment {
        Some(f) => "#"@ + f,
        None => Seq::empty(),
    })
}

impl AnnounceUrl {
    /// This URL as plain values.
    pub open spec fn view(&self) -> UrlParts {
        UrlParts {
            head: self.head@,
            query: match self.query {
                Some(q) => Some(q@),
                None => None,
            },
            fragment: match self.fragment {
                Some(f) => Some(f@),
                None => None,
            },
        }
    }

    /// This URL written out.
    pub fn text(&self) -> (r: String)
        ensures
            r@ == url_text(self@),
    {
        let mut text: String = self.head.clone();
        match &self.query {
            Some(q) => {
                text.append("?");
                text.append(q.as_str());
            },
            None => {},
        }
        match &self.fragment {
            Some(f) => {
                text.append("#");
                text.append(f.as_str());
            },
            None => {},
        }
        proof {
            assert(text@ =~= url_text(self@));
        }
        text
    }
}

} // verus!
