//! The protocol header encoder: translates a set of header fields into the
//! fixed-name wire headers that every statement request carries.

use crate::text::{
    join_comma, join_with_commas, lemma_deep_view_is_views_of, lemma_pair_deep_view,
    lemma_pair_leq_total_ordering, pair_leq, pair_views, sort_entries, views_of,
};
use vstd::prelude::*;
use vstd::relations::sorted_by;
use vstd::seq_lib::lemma_sorted_unique;

verus! {

/// One protocol header field, carrying its value. Each variant corresponds to
/// exactly one fixed header name.
pub enum HeaderField {
    User(String),
    Source(String),
    Catalog(String),
    Schema(String),
    TraceToken(String),
    /// Session properties, as key/value entries.
    /// Duplicate keys are kept: all entries are serialized, those sharing a
    /// key ordered by value among themselves.
    Session(Vec<(String, String)>),
    TransactionId(String),
    ClientInfo(String),
    ClientTag(String),
}

/// The text `key=value` of one session entry.
pub open spec fn kv_text(p: (Seq<char>, Seq<char>)) -> Seq<char> {
    p.0 + seq!['='] + p.1
}

/// The `key=value` texts of a sequence of session entries, in order.
pub open spec fn kv_texts(entries: Seq<(Seq<char>, Seq<char>)>) -> Seq<Seq<char>> {
    entries.map_values(|p: (Seq<char>, Seq<char>)| kv_text(p))
}

/// The serialized session value: the entries sorted ascending by key
/// (entries sharing a key ordered by value), each written `key=value`,
/// joined with commas. Sorting makes the serialization independent of the
/// order in which the entries were supplied.
pub open spec fn session_text(entries: Seq<(Seq<char>, Seq<char>)>) -> Seq<char> {
    join_comma(kv_texts(entries.sort_by(pair_leq())))
}

/// The fixed name of the header for this field, without the protocol prefix.
pub open spec fn field_key(f: HeaderField) -> Seq<char> {
    match f {
        HeaderField::User(_) => "User"@,
        HeaderField::Source(_) => "Source"@,
        HeaderField::Catalog(_) => "Catalog"@,
        HeaderField::Schema(_) => "Schema"@,
        HeaderField::TraceToken(_) => "Trace-Token"@,
        HeaderField::Session(_) => "Session"@,
        HeaderField::TransactionId(_) => "Transaction-Id"@,
        HeaderField::ClientInfo(_) => "Client-Info"@,
        HeaderField::ClientTag(_) => "Client-Tags"@,
    }
}

/// The protocol prefix put before every header name.
pub open spec fn prefix_text() -> Seq<char> {
    "X-Trino-"@
}

/// The full wire name of the header for this field.
pub open spec fn field_name(f: HeaderField) -> Seq<char> {
    prefix_text() + field_key(f)
}

/// The serialized value of this field.
pub open spec fn field_value(f: HeaderField) -> Seq<char> {
    match f {
        HeaderField::User(s) => s@,
        HeaderField::Source(s) => s@,
        HeaderField::Catalog(s) => s@,
        HeaderField::Schema(s) => s@,
        HeaderField::TraceToken(s) => s@,
        HeaderField::Session(m) => session_text(m.deep_view()),
        HeaderField::TransactionId(s) => s@,
        HeaderField::ClientInfo(s) => s@,
        HeaderField::ClientTag(s) => s@,
    }
}

/// The name/value pairs that a sequence of fields encodes to, in order.
pub open spec fn encoded_pairs(fields: Seq<HeaderField>) -> Seq<(Seq<char>, Seq<char>)> {
    Seq::new(fields.len(), |i: int| (field_name(fields[i]), field_value(fields[i])))
}

impl HeaderField {
    /// The fixed key name of this field, without the protocol prefix.
    pub fn get_key(&self) -> (r: &'static str)
        ensures
            r@ == field_key(*self),
    {
        match self {
            HeaderField::User(_) => "User",
            HeaderField::Source(_) => "Source",
            HeaderField::Catalog(_) => "Catalog",
            HeaderField::Schema(_) => "Schema",
            HeaderField::TraceToken(_) => "Trace-Token",
            HeaderField::Session(_) => "Session",
            HeaderField::TransactionId(_) => "Transaction-Id",
            HeaderField::ClientInfo(_) => "Client-Info",
            HeaderField::ClientTag(_) => "Client-Tags",
        }
    }
}

/// An insertion-ordered set of header fields, built fluently. Duplicates are
/// kept and emitted in order.
pub struct HeaderBuilder {
    headers: Vec<HeaderField>,
}

impl View for HeaderBuilder {
    type V = Seq<HeaderField>;

    closed spec fn view(&self) -> Seq<HeaderField> {
        self.headers@
    }
}

impl HeaderBuilder {
    /// A builder with no fields.
    pub fn new() -> (r: Self)
        ensures
            r@ == Seq::<HeaderField>::empty(),
    {
        let r = HeaderBuilder { headers: Vec::<HeaderField>::new() };
        proof {
            assert(r@ =~= Seq::<HeaderField>::empty());
        }
        r
    }

    /// Appends one field; existing fields, including duplicates, are kept.
    pub fn add_header(self, field: HeaderField) -> (r: Self)
        ensures
            r@ == self@.push(field),
    {
        let mut s = self;
        s.headers.push(field);
        s
    }

    /// The protocol prefix put before every header name.
    pub fn get_prefix() -> (r: &'static str)
        ensures
            r@ == prefix_text(),
    {
        "X-Trino-"
    }

    /// Serializes session entries: sorted ascending by key (duplicates of a
    /// key ordered by value), written `key=value`, joined with commas.
    pub fn serialize_session(session: &Vec<(String, String)>) -> (r: String)
        ensures
            r@ == session_text(session.deep_view()),
    {
        proof {
            lemma_pair_deep_view(session);
        }
        let ghost sd = session.deep_view();
        let sorted = sort_entries(session);
        proof {
            lemma_pair_leq_total_ordering();
            sd.lemma_sort_by_ensures(pair_leq());
            lemma_sorted_unique(sorted.deep_view(), sd.sort_by(pair_leq()), pair_leq());
            lemma_pair_deep_view(&sorted);
        }
        let ghost od = sorted.deep_view();
        let ghost mapped = kv_texts(od);
        let mut texts: Vec<String> = Vec::new();
        let mut i: usize = 0;
        proof {
            assert(views_of(texts@) =~= mapped.take(0));
        }
        while i < sorted.len()
            invariant
                i <= sorted.len(),
                od == pair_views(sorted@),
                od.len() == sorted@.len(),
                mapped == kv_texts(od),
                views_of(texts@) == mapped.take(i as int),
            decreases sorted.len() - i,
        {
            let mut t = sorted[i].0.clone();
            t.append("=");
            t.append(sorted[i].1.as_str());
            proof {
                reveal_strlit("=");
                assert("="@ =~= seq!['=']);
                assert(od[i as int] == (sorted@[i as int].0@, sorted@[i as int].1@));
                assert(t@ == kv_text(od[i as int]));
                assert(mapped[i as int] == kv_text(od[i as int]));
            }
            let ghost pres = texts@;
            texts.push(t);
            proof {
                crate::text::lemma_views_of_push(pres, t);
                assert(views_of(texts@) =~= mapped.take(i + 1));
            }
            i = i + 1;
        }
        proof {
            assert(mapped.take(mapped.len() as int) =~= mapped);
            lemma_deep_view_is_views_of(&texts);
        }
        let r = join_with_commas(&texts);
        proof {
            assert(od == sd.sort_by(pair_leq()));
            assert(texts.deep_view() == kv_texts(sd.sort_by(pair_leq())));
        }
        r
    }

    /// Encodes every field, in insertion order, to its wire name/value pair.
    pub fn encoded(&self) -> (r: Vec<(String, String)>)
        ensures
            r.deep_view() == encoded_pairs(self@),
    {
        let ghost ep = encoded_pairs(self@);
        let mut r: Vec<(String, String)> = Vec::new();
        let mut i: usize = 0;
        proof {
            assert(pair_views(r@) =~= ep.take(0));
        }
        while i < self.headers.len()
            invariant
                i <= self.headers.len(),
                ep == encoded_pairs(self.headers@),
                ep.len() == self.headers@.len(),
                pair_views(r@) == ep.take(i as int),
            decreases self.headers.len() - i,
        {
            let h = &self.headers[i];
            let mut key = String::from_str(Self::get_prefix());
            key.append(h.get_key());
            let value: String = match h {
                HeaderField::User(s) => s.clone(),
                HeaderField::Source(s) => s.clone(),
                HeaderField::Catalog(s) => s.clone(),
                HeaderField::Schema(s) => s.clone(),
                HeaderField::TraceToken(s) => s.clone(),
                HeaderField::Session(m) => Self::serialize_session(m),
                HeaderField::TransactionId(s) => s.clone(),
                HeaderField::ClientInfo(s) => s.clone(),
                HeaderField::ClientTag(s) => s.clone(),
            };
            proof {
                assert(key@ == field_name(self.headers@[i as int]));
                assert(value@ == field_value(self.headers@[i as int]));
                assert(ep[i as int] == (key@, value@));
            }
            let ghost pres = r@;
            r.push((key, value));
            proof {
                assert(pair_views(pres).len() == pres.len());
                assert(ep.take(i as int).len() == i as int);
                assert(pres.len() == i as int);
                assert(r@ == pres.push((key, value)));
                assert forall|j: int| 0 <= j < r@.len() implies pair_views(r@)[j] == ep.take(
                    i + 1,
                )[j] by {
                    assert(ep.take(i + 1)[j] == ep[j]);
                    assert(pair_views(r@)[j] == (r@[j].0@, r@[j].1@));
                    if j < pres.len() {
                        assert(r@[j] == pres[j]);
                        assert(pair_views(pres)[j] == (pres[j].0@, pres[j].1@));
                        assert(ep.take(i as int)[j] == ep[j]);
                    } else {
                        assert(r@[j] == (key, value));
                        assert(pair_views(r@)[j] == (key@, value@));
                    }
                }
                assert(pair_views(r@) =~= ep.take(i + 1));
            }
            i = i + 1;
        }
        proof {
            assert(ep.take(ep.len() as int) =~= ep);
            lemma_pair_deep_view(&r);
        }
        r
    }

    /// Applies every field of this set, in insertion order, to the
    /// transport's request builder, one header per field. When the returned
    /// builder is error-free, each stored name's value list grew by exactly
    /// this set's values for that name, in order. The application surely
    /// succeeds on an error-free builder when every value is header-safe and
    /// the builder holds well under the transport map's growth limits;
    /// values are not validated here (the caller is responsible for
    /// header-safe input).
    pub fn set_headers(&self, builder: http::request::Builder) -> (r: http::request::Builder)
        ensures
            builder_ok(r) ==> builder_ok(builder) && (forall|n: Seq<char>|
                #[trigger] builder_values(r, n) == builder_values(builder, n) + wire_values(
                    self@,
                    n,
                )) && builder_len(r) == builder_len(builder) + self@.len(),
            (builder_ok(builder) && fields_values_ok(self@) && builder_len(builder) + self@.len()
                <= 4096) ==> builder_ok(r),
            !builder_ok(builder) ==> !builder_ok(r),
    {
        let ghost fields = self.headers@;
        let mut b = builder;
        let mut i: usize = 0;
        proof {
            assert forall|n: Seq<char>| #[trigger] builder_values(b, n) == builder_values(
                builder,
                n,
            ) + wire_values(fields.take(0), n) by {
                assert(fields.take(0).len() == 0);
                assert(builder_values(builder, n) + wire_values(fields.take(0), n)
                    =~= builder_values(builder, n));
            }
        }
        while i < self.headers.len()
            invariant
                i <= self.headers.len(),
                fields == self.headers@,
                builder_ok(b) ==> builder_ok(builder) && (forall|n: Seq<char>|
                    #[trigger] builder_values(b, n) == builder_values(builder, n) + wire_values(
                        fields.take(i as int),
                        n,
                    )) && builder_len(b) == builder_len(builder) + i,
                (builder_ok(builder) && fields_values_ok(fields) && builder_len(builder)
                    + fields.len() <= 4096) ==> builder_ok(b),
                !builder_ok(builder) ==> !builder_ok(b),
            decreases self.headers.len() - i,
        {
            let h = &self.headers[i];
            let mut key = String::from_str(Self::get_prefix());
            key.append(h.get_key());
            let value: String = match h {
                HeaderField::User(s) => s.clone(),
                HeaderField::Source(s) => s.clone(),
                HeaderField::Catalog(s) => s.clone(),
                HeaderField::Schema(s) => s.clone(),
                HeaderField::TraceToken(s) => s.clone(),
                HeaderField::Session(m) => Self::serialize_session(m),
                HeaderField::TransactionId(s) => s.clone(),
                HeaderField::ClientInfo(s) => s.clone(),
                HeaderField::ClientTag(s) => s.clone(),
            };
            proof {
                assert(key@ == field_name(fields[i as int]));
                assert(value@ == field_value(fields[i as int]));
                lemma_field_name_chars_ok(fields[i as int]);
            }
            let ghost b0 = b;
            b = builder_header(b, key.as_str(), value.as_str());
            proof {
                let f = fields[i as int];
                if builder_ok(b) {
                    assert forall|n: Seq<char>| #[trigger] builder_values(b, n) == builder_values(
                        builder,
                        n,
                    ) + wire_values(fields.take(i + 1), n) by {
                        assert(fields.take(i + 1).last() == f);
                        assert(fields.take(i + 1).drop_last() =~= fields.take(i as int));
                        if n == ascii_lower(field_name(f)) {
                            assert(wire_values(fields.take(i + 1), n) == wire_values(
                                fields.take(i as int),
                                n,
                            ).push(field_value(f)));
                            assert(builder_values(b, n) == builder_values(b0, n).push(value@));
                            assert(builder_values(builder, n) + wire_values(
                                fields.take(i as int),
                                n,
                            ).push(field_value(f)) =~= (builder_values(builder, n) + wire_values(
                                fields.take(i as int),
                                n,
                            )).push(field_value(f)));
                        } else {
                            assert(wire_values(fields.take(i + 1), n) == wire_values(
                                fields.take(i as int),
                                n,
                            ));
                            assert(builder_values(b, n) == builder_values(b0, n));
                        }
                    }
                }
            }
            i = i + 1;
        }
        proof {
            assert(fields.take(fields.len() as int) =~= fields);
        }
        b
    }

    /// Builds a fresh transport request builder carrying exactly this set's
    /// headers: when it comes back error-free it holds, under each stored
    /// name, this set's values for that name in order, and nothing else; it
    /// surely comes back error-free when every value is header-safe and the
    /// set is not unreasonably large.
    pub fn to_request_builder(&self) -> (r: http::request::Builder)
        ensures
            builder_ok(r) ==> (forall|n: Seq<char>| #[trigger] builder_values(r, n) == wire_values(
                self@,
                n,
            )) && builder_len(r) == self@.len(),
            (fields_values_ok(self@) && self@.len() <= 4096) ==> builder_ok(r),
    {
        let b = new_builder();
        let ghost b0 = b;
        let r = self.set_headers(b);
        proof {
            if builder_ok(r) {
                assert forall|n: Seq<char>| #[trigger] builder_values(r, n) == wire_values(
                    self@,
                    n,
                ) by {
                    assert(builder_values(r, n) == builder_values(b0, n) + wire_values(self@, n));
                    assert(Seq::<Seq<char>>::empty() + wire_values(self@, n) =~= wire_values(
                        self@,
                        n,
                    ));
                }
            }
        }
        r
    }
}

/// http's request builder, declared so that its values can flow through
/// verified code; its contents are described only by the names below.
#[verifier::external_type_specification]
#[verifier::external_body]
pub struct ExBuilder(http::request::Builder);

/// Whether the request builder holds no recorded error.
pub uninterp spec fn builder_ok(b: http::request::Builder) -> bool;

/// The values the builder's header map records under the given stored name,
/// in the order they were appended to that name. The map keeps order only
/// within one name, not across names.
pub uninterp spec fn builder_values(b: http::request::Builder, name: Seq<char>) -> Seq<Seq<char>>;

/// How many header values the builder's map holds in all.
pub uninterp spec fn builder_len(b: http::request::Builder) -> nat;

/// The ASCII-lowercase form of one character: letters A to Z mapped to a to
/// z, every other character kept.
pub open spec fn ascii_lower_char(c: char) -> char {
    if 65 <= c as u32 <= 90 {
        ((c as u32) + 32) as char
    } else {
        c
    }
}

/// The ASCII-lowercase form of a text. The transport stores every accepted
/// header name in this form.
pub open spec fn ascii_lower(s: Seq<char>) -> Seq<char> {
    Seq::new(s.len(), |i: int| ascii_lower_char(s[i]))
}

/// Characters that http accepts in a header name; the protocol's fixed names
/// use only ASCII letters and `-`.
pub open spec fn name_chars_ok(s: Seq<char>) -> bool {
    forall|i: int|
        0 <= i < s.len() ==> ((97 <= #[trigger] (s[i] as u32) && s[i] as u32 <= 122) || (65 <= s[i]
            as u32 && s[i] as u32 <= 90) || s[i] == '-')
}

/// Characters that http accepts in a header value: code points 32 and above
/// except 127, and tab. Characters past 127 encode to bytes http accepts.
pub open spec fn value_chars_ok(s: Seq<char>) -> bool {
    forall|i: int|
        0 <= i < s.len() ==> ((32 <= #[trigger] (s[i] as u32) && s[i] as u32 != 127) || s[i]
            == '\t')
}

/// Every field of the sequence serializes to a header-safe value.
pub open spec fn fields_values_ok(fields: Seq<HeaderField>) -> bool {
    forall|i: int| 0 <= i < fields.len() ==> value_chars_ok(field_value(#[trigger] fields[i]))
}

/// The values a sequence of fields adds under the given stored header name,
/// in order.
pub open spec fn wire_values(fields: Seq<HeaderField>, name: Seq<char>) -> Seq<Seq<char>>
    decreases fields.len(),
{
    if fields.len() == 0 {
        Seq::empty()
    } else if ascii_lower(field_name(fields.last())) == name {
        wire_values(fields.drop_last(), name).push(field_value(fields.last()))
    } else {
        wire_values(fields.drop_last(), name)
    }
}

proof fn lemma_name_chars_concat(a: Seq<char>, b: Seq<char>)
    requires
        name_chars_ok(a),
        name_chars_ok(b),
    ensures
        name_chars_ok(a + b),
{
    assert forall|i: int| 0 <= i < (a + b).len() implies ((97 <= #[trigger] ((a + b)[i] as u32)
        && (a + b)[i] as u32 <= 122) || (65 <= (a + b)[i] as u32 && (a + b)[i] as u32 <= 90) || (a
        + b)[i] == '-') by {
        if i < a.len() {
            assert((a + b)[i] == a[i]);
        } else {
            assert((a + b)[i] == b[i - a.len()]);
        }
    }
}

proof fn lemma_field_name_chars_ok(f: HeaderField)
    ensures
        name_chars_ok(field_name(f)),
        0 < field_name(f).len() <= 65535,
{
    reveal_strlit("X-Trino-");
    assert(name_chars_ok("X-Trino-"@));
    assert(prefix_text().len() == 8);
    assert(field_key(f).len() <= 14) by {
        reveal_strlit("User");
        reveal_strlit("Source");
        reveal_strlit("Catalog");
        reveal_strlit("Schema");
        reveal_strlit("Trace-Token");
        reveal_strlit("Session");
        reveal_strlit("Transaction-Id");
        reveal_strlit("Client-Info");
        reveal_strlit("Client-Tags");
    }
    match f {
        HeaderField::User(_) => {
            reveal_strlit("User");
            assert(name_chars_ok("User"@));
        },
        HeaderField::Source(_) => {
            reveal_strlit("Source");
            assert(name_chars_ok("Source"@));
        },
        HeaderField::Catalog(_) => {
            reveal_strlit("Catalog");
            assert(name_chars_ok("Catalog"@));
        },
        HeaderField::Schema(_) => {
            reveal_strlit("Schema");
            assert(name_chars_ok("Schema"@));
        },
        HeaderField::TraceToken(_) => {
            reveal_strlit("Trace-Token");
            assert(name_chars_ok("Trace-Token"@));
        },
        HeaderField::Session(_) => {
            reveal_strlit("Session");
            assert(name_chars_ok("Session"@));
        },
        HeaderField::TransactionId(_) => {
            reveal_strlit("Transaction-Id");
            assert(name_chars_ok("Transaction-Id"@));
        },
        HeaderField::ClientInfo(_) => {
            reveal_strlit("Client-Info");
            assert(name_chars_ok("Client-Info"@));
        },
        HeaderField::ClientTag(_) => {
            reveal_strlit("Client-Tags");
            assert(name_chars_ok("Client-Tags"@));
        },
    }
    lemma_name_chars_concat(prefix_text(), field_key(f));
}

/// Relies on http::request::Builder::header: when the returned builder holds
/// no error, the name was accepted and so stored in its ASCII-lowercase form
/// (HeaderName::from_bytes maps every accepted byte through one fixed table,
/// which only changes letter case), the value was appended at the end of
/// what that stored name holds, every other name kept its values, and the
/// map holds one more value; the call surely succeeds on an error-free
/// builder when the name is nonempty, at most 65535 characters, of
/// acceptable characters, the value's characters are acceptable, and the map
/// holds well under its growth limits (its size cap, its usable-capacity
/// factor and its collision-rebuild threshold all lie far above 4096
/// values); any failure, an empty or over-long name included, is recorded,
/// and a builder that already held an error keeps it.
#[verifier::external_body]
fn builder_header(b: http::request::Builder, key: &str, value: &str) -> (r:
    http::request::Builder)
    ensures
        builder_ok(r) ==> builder_ok(b) && builder_values(r, ascii_lower(key@)) == builder_values(
            b,
            ascii_lower(key@),
        ).push(value@) && (forall|n: Seq<char>|
            n != ascii_lower(key@) ==> #[trigger] builder_values(r, n) == builder_values(b, n))
            && builder_len(r) == builder_len(b) + 1,
        (builder_ok(b) && name_chars_ok(key@) && 0 < key@.len() <= 65535 && value_chars_ok(value@)
            && builder_len(b) < 4096) ==> builder_ok(r),
        !builder_ok(b) ==> !builder_ok(r),
{
    b.header(key, value)
}

/// Relies on http::request::Builder::new (the default builder): it starts
/// error-free, with no header values recorded.
#[verifier::external_body]
fn new_builder() -> (r: http::request::Builder)
    ensures
        builder_ok(r),
        builder_len(r) == 0,
        forall|n: Seq<char>| #[trigger] builder_values(r, n) == Seq::<Seq<char>>::empty(),
{
    http::request::Builder::new()
}

/// Session serialization does not depend on the order the entries are given
/// in: two entry sequences holding the same collection of entries serialize
/// to the same value.
pub proof fn lemma_session_text_order_independent(
    a: Seq<(Seq<char>, Seq<char>)>,
    b: Seq<(Seq<char>, Seq<char>)>,
)
    requires
        a.to_multiset() == b.to_multiset(),
    ensures
        session_text(a) == session_text(b),
{
    lemma_pair_leq_total_ordering();
    a.lemma_sort_by_ensures(pair_leq());
    b.lemma_sort_by_ensures(pair_leq());
    lemma_sorted_unique(a.sort_by(pair_leq()), b.sort_by(pair_leq()), pair_leq());
}

} // verus!
