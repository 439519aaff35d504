use vstd::prelude::*;
use vstd::utf8::encode_utf8;

use crate::cipher::{enc_field_spec, encrypt_string_field, okey_view, okey_wf, StoreKey};
use crate::types::{enc_tags_view, KvEncTag};

verus! {

// ---------------------------------------------------------------------------
// Tag filters and their meaning
// ---------------------------------------------------------------------------

/// A tag-filter expression: conjunctions, disjunctions and negations of
/// equality, comparison and existence predicates over tag name/value pairs.
/// Value predicates search plaintext-flagged tags only (encrypted tag values
/// are opaque and not searchable); existence looks at every tag.
#[derive(Debug)]
pub enum TagFilter {
    Eq(String, String),
    Neq(String, String),
    Gt(String, String),
    Gte(String, String),
    Lt(String, String),
    Lte(String, String),
    Exist(String),
    And(Box<TagFilter>, Box<TagFilter>),
    Or(Box<TagFilter>, Box<TagFilter>),
    Not(Box<TagFilter>),
}

/// Lexicographic byte comparison: negative, zero or positive as `a` is
/// below, equal to or above `b`.
pub open spec fn bytes_cmp(a: Seq<u8>, b: Seq<u8>) -> int
    decreases a.len(),
{
    if a.len() == 0 && b.len() == 0 {
        0
    } else if a.len() == 0 {
        -1
    } else if b.len() == 0 {
        1
    } else if a.first() < b.first() {
        -1
    } else if a.first() > b.first() {
        1
    } else {
        bytes_cmp(a.drop_first(), b.drop_first())
    }
}

/// Whether a comparison outcome is accepted, given which of below / equal /
/// above the predicate allows.
pub open spec fn cmp_allowed(c: int, lt: bool, eq: bool, gt: bool) -> bool {
    if c < 0 {
        lt
    } else if c == 0 {
        eq
    } else {
        gt
    }
}

/// Whether one stored tag satisfies a value predicate: it is plaintext, its
/// (encrypted) name matches, and its clear value compares as allowed.
pub open spec fn leaf_match_at(
    key: Option<Seq<u8>>,
    t: crate::types::EncTagView,
    name: Seq<char>,
    value: Seq<char>,
    lt: bool,
    eq: bool,
    gt: bool,
) -> bool {
    &&& t.plaintext
    &&& t.name == enc_field_spec(key, encode_utf8(name))
    &&& cmp_allowed(bytes_cmp(t.value, encode_utf8(value)), lt, eq, gt)
}

/// Whether some stored tag satisfies a value predicate.
pub open spec fn leaf_match(
    key: Option<Seq<u8>>,
    tags: Seq<crate::types::EncTagView>,
    name: Seq<char>,
    value: Seq<char>,
    lt: bool,
    eq: bool,
    gt: bool,
) -> bool {
    exists|i: int|
        0 <= i < tags.len() && leaf_match_at(key, #[trigger] tags[i], name, value, lt, eq, gt)
}

/// Whether some stored tag (plaintext or encrypted) carries the given name.
pub open spec fn exist_match(
    key: Option<Seq<u8>>,
    tags: Seq<crate::types::EncTagView>,
    name: Seq<char>,
) -> bool {
    exists|i: int|
        0 <= i < tags.len() && (#[trigger] tags[i]).name == enc_field_spec(key, encode_utf8(name))
}

/// The meaning of a filter against one entry's stored tag set, under the
/// profile's key.
pub open spec fn filter_matches(
    key: Option<Seq<u8>>,
    f: TagFilter,
    tags: Seq<crate::types::EncTagView>,
) -> bool
    decreases f,
{
    match f {
        TagFilter::Eq(n, v) => leaf_match(key, tags, n@, v@, false, true, false),
        TagFilter::Neq(n, v) => leaf_match(key, tags, n@, v@, true, false, true),
        TagFilter::Gt(n, v) => leaf_match(key, tags, n@, v@, false, false, true),
        TagFilter::Gte(n, v) => leaf_match(key, tags, n@, v@, false, true, true),
        TagFilter::Lt(n, v) => leaf_match(key, tags, n@, v@, true, false, false),
        TagFilter::Lte(n, v) => leaf_match(key, tags, n@, v@, true, true, false),
        TagFilter::Exist(n) => exist_match(key, tags, n@),
        TagFilter::And(l, r) => filter_matches(key, *l, tags) && filter_matches(key, *r, tags),
        TagFilter::Or(l, r) => filter_matches(key, *l, tags) || filter_matches(key, *r, tags),
        TagFilter::Not(g) => !filter_matches(key, *g, tags),
    }
}

/// Whether an optional filter accepts an entry's stored tag set; no filter
/// accepts everything.
pub open spec fn opt_filter_matches(
    key: Option<Seq<u8>>,
    f: Option<TagFilter>,
    tags: Seq<crate::types::EncTagView>,
) -> bool {
    match f {
        Some(q) => filter_matches(key, q, tags),
        None => true,
    }
}

/// Byte equality.
pub fn bytes_eq(a: &Vec<u8>, b: &Vec<u8>) -> (r: bool)
    ensures
        r == (a@ == b@),
{
    if a.len() != b.len() {
        return false;
    }
    let mut i: usize = 0;
    while i < a.len()
        invariant
            a@.len() == b@.len(),
            i <= a@.len(),
            forall|j: int| 0 <= j < i ==> a@[j] == b@[j],
        decreases a@.len() - i,
    {
        if a[i] != b[i] {
            return false;
        }
        i += 1;
    }
    proof {
        assert(a@ =~= b@);
    }
    true
}

/// Lexicographic byte comparison.
pub fn bytes_compare(a: &Vec<u8>, b: &Vec<u8>) -> (r: i8)
    ensures
        r as int == bytes_cmp(a@, b@) || (r as int) * bytes_cmp(a@, b@) > 0,
        (r == 0) == (bytes_cmp(a@, b@) == 0),
        (r < 0) == (bytes_cmp(a@, b@) < 0),
        (r > 0) == (bytes_cmp(a@, b@) > 0),
{
    let mut i: usize = 0;
    proof {
        assert(a@.skip(0) =~= a@);
        assert(b@.skip(0) =~= b@);
    }
    while i < a.len() && i < b.len()
        invariant
            i <= a@.len(),
            i <= b@.len(),
            bytes_cmp(a@, b@) == bytes_cmp(a@.skip(i as int), b@.skip(i as int)),
        decreases a@.len() - i,
    {
        if a[i] < b[i] {
            proof {
                assert(a@.skip(i as int).first() == a@[i as int]);
            }
            return -1;
        }
        if a[i] > b[i] {
            return 1;
        }
        proof {
            assert(a@.skip(i as int).drop_first() =~= a@.skip(i + 1));
            assert(b@.skip(i as int).drop_first() =~= b@.skip(i + 1));
        }
        i += 1;
    }
    if a.len() < b.len() {
        proof {
            assert(a@.skip(i as int).len() == 0);
            assert(b@.skip(i as int).len() > 0);
        }
        -1
    } else if a.len() > b.len() {
        1
    } else {
        proof {
            assert(a@.skip(i as int).len() == 0);
            assert(b@.skip(i as int).len() == 0);
        }
        0
    }
}

/// Evaluates a value predicate against a tag set.
fn eval_leaf(
    key: &Option<StoreKey>,
    tags: &Vec<KvEncTag>,
    name: &String,
    value: &String,
    lt: bool,
    eq: bool,
    gt: bool,
) -> (r: bool)
    requires
        okey_wf(*key),
    ensures
        r == leaf_match(okey_view(*key), enc_tags_view(tags@), name@, value@, lt, eq, gt),
{
    let enc_name = encrypt_string_field(key, name.as_str());
    let value_bytes = value.as_str().as_bytes_vec();
    let mut i: usize = 0;
    while i < tags.len()
        invariant
            okey_wf(*key),
            i <= tags@.len(),
            enc_name@ == enc_field_spec(okey_view(*key), encode_utf8(name@)),
            value_bytes@ == encode_utf8(value@),
            forall|j: int|
                0 <= j < i ==> !leaf_match_at(
                    okey_view(*key),
                    enc_tags_view(tags@)[j],
                    name@,
                    value@,
                    lt,
                    eq,
                    gt,
                ),
        decreases tags@.len() - i,
    {
        let t = &tags[i];
        if t.plaintext && bytes_eq(&t.name, &enc_name) {
            let c = bytes_compare(&t.value, &value_bytes);
            let ok = if c < 0 {
                lt
            } else if c == 0 {
                eq
            } else {
                gt
            };
            if ok {
                proof {
                    assert(leaf_match_at(
                        okey_view(*key),
                        enc_tags_view(tags@)[i as int],
                        name@,
                        value@,
                        lt,
                        eq,
                        gt,
                    ));
                }
                return true;
            }
        }
        i += 1;
    }
    false
}

/// Evaluates an existence predicate against a tag set.
fn eval_exist(key: &Option<StoreKey>, tags: &Vec<KvEncTag>, name: &String) -> (r: bool)
    requires
        okey_wf(*key),
    ensures
        r == exist_match(okey_view(*key), enc_tags_view(tags@), name@),
{
    let enc_name = encrypt_string_field(key, name.as_str());
    let mut i: usize = 0;
    while i < tags.len()
        invariant
            okey_wf(*key),
            i <= tags@.len(),
            enc_name@ == enc_field_spec(okey_view(*key), encode_utf8(name@)),
            forall|j: int|
                0 <= j < i ==> (#[trigger] enc_tags_view(tags@)[j]).name != enc_field_spec(
                    okey_view(*key),
                    encode_utf8(name@),
                ),
        decreases tags@.len() - i,
    {
        if bytes_eq(&tags[i].name, &enc_name) {
            proof {
                assert((enc_tags_view(tags@)[i as int]).name == enc_field_spec(
                    okey_view(*key),
                    encode_utf8(name@),
                ));
            }
            return true;
        }
        i += 1;
    }
    false
}

// ---------------------------------------------------------------------------
// The query translator
// ---------------------------------------------------------------------------

/// A value bound to one placeholder of a prepared statement.
#[derive(Clone, Debug, PartialEq, Eq)]
pub enum QueryArg {
    Int(i64),
    Bytes(Vec<u8>),
}

/// Mathematical image of a [`QueryArg`].
pub ghost enum ArgView {
    Int(i64),
    Bytes(Seq<u8>),
}

impl View for QueryArg {
    type V = ArgView;

    open spec fn view(&self) -> ArgView {
        match self {
            QueryArg::Int(v) => ArgView::Int(*v),
            QueryArg::Bytes(b) => ArgView::Bytes(b@),
        }
    }
}

/// The views of an argument list.
pub open spec fn args_view(s: Seq<QueryArg>) -> Seq<ArgView> {
    Seq::new(s.len(), |i: int| s[i]@)
}

/// The decimal digit character of `d`.
pub open spec fn dec_digit(d: int) -> Seq<char> {
    if d == 0 {
        ("0")@
    } else if d == 1 {
        ("1")@
    } else if d == 2 {
        ("2")@
    } else if d == 3 {
        ("3")@
    } else if d == 4 {
        ("4")@
    } else if d == 5 {
        ("5")@
    } else if d == 6 {
        ("6")@
    } else if d == 7 {
        ("7")@
    } else if d == 8 {
        ("8")@
    } else {
        ("9")@
    }
}

/// The decimal digits of a non-negative number.
pub open spec fn dec_str(n: int) -> Seq<char>
    recommends
        n >= 0,
    decreases n,
{
    if n < 10 {
        dec_digit(n)
    } else {
        dec_str(n / 10) + dec_digit(n % 10)
    }
}

/// Appends one decimal digit.
fn push_digit(s: &mut String, d: usize)
    requires
        d < 10,
    ensures
        final(s)@ == old(s)@ + dec_digit(d as int),
{
    let p: &str = match d {
        0 => "0",
        1 => "1",
        2 => "2",
        3 => "3",
        4 => "4",
        5 => "5",
        6 => "6",
        7 => "7",
        8 => "8",
        _ => "9",
    };
    s.append(p);
}

/// Appends the decimal digits of `n`.
fn push_number(s: &mut String, n: usize)
    ensures
        final(s)@ == old(s)@ + dec_str(n as int),
    decreases n,
{
    if n >= 10 {
        push_number(s, n / 10);
    }
    push_digit(s, n % 10);
    proof {
        if n < 10 {
            assert(dec_str(n as int) == dec_digit(n as int));
        }
    }
}

/// A target backend's placeholder convention for prepared statements.
pub trait QueryPrepare {
    /// The text of the placeholder carrying index `index`.
    spec fn placeholder_spec(index: int) -> Seq<char>;

    /// Writes the placeholder carrying index `index`.
    fn place_holder(index: usize) -> (r: String)
        ensures
            r@ == Self::placeholder_spec(index as int),
    ;
}

/// The backend convention numbers placeholders `?1`, `?2`, ... in the order
/// their values are bound.
impl QueryPrepare for crate::store::KvStore {
    open spec fn placeholder_spec(index: int) -> Seq<char> {
        ("?")@ + dec_str(index)
    }

    fn place_holder(index: usize) -> (r: String) {
        let mut s = String::new();
        s.append("?");
        push_number(&mut s, index);
        s
    }
}

/// What replacing each `$$` of a statement with the backend's numbered
/// placeholders, counting on from `index`, gives: the rewritten text and the
/// next free index.
pub open spec fn replace_placeholders_spec<Q: QueryPrepare>(s: Seq<char>, index: int) -> (
    Seq<char>,
    int,
)
    decreases s.len(),
{
    if s.len() >= 2 && s[0] == '$' && s[1] == '$' {
        let (rest, n) = replace_placeholders_spec::<Q>(s.skip(2), index + 1);
        (Q::placeholder_spec(index) + rest, n)
    } else if s.len() == 0 {
        (s, index)
    } else {
        let (rest, n) = replace_placeholders_spec::<Q>(s.skip(1), index);
        (seq![s[0]] + rest, n)
    }
}

/// Replaces each `$$` of a statement with the backend's numbered
/// placeholders, counting on from `start_index`; returns the rewritten text
/// and the next free index.
pub fn replace_arg_placeholders<Q: QueryPrepare>(filter: &str, start_index: usize) -> (r: (
    String,
    usize,
))
    requires
        start_index + filter@.len() <= usize::MAX,
    ensures
        r.0@ == replace_placeholders_spec::<Q>(filter@, start_index as int).0,
        r.1 as int == replace_placeholders_spec::<Q>(filter@, start_index as int).1,
{
    let n = filter.unicode_len();
    let mut out = String::new();
    let mut index = start_index;
    let mut i: usize = 0;
    proof {
        assert(filter@.skip(0) =~= filter@);
    }
    while i < n
        invariant
            n == filter@.len(),
            start_index + n <= usize::MAX,
            i <= n,
            start_index <= index <= start_index + i,
            replace_placeholders_spec::<Q>(filter@, start_index as int).0 == out@
                + replace_placeholders_spec::<Q>(filter@.skip(i as int), index as int).0,
            replace_placeholders_spec::<Q>(filter@, start_index as int).1
                == replace_placeholders_spec::<Q>(filter@.skip(i as int), index as int).1,
        decreases n - i,
    {
        let ghost tail = filter@.skip(i as int);
        if i + 1 < n && filter.get_char(i) == '$' && filter.get_char(i + 1) == '$' {
            let ph = Q::place_holder(index);
            out.append(ph.as_str());
            proof {
                assert(tail[0] == '$' && tail[1] == '$');
                assert(tail.skip(2) =~= filter@.skip(i + 2));
            }
            index += 1;
            i += 2;
        } else {
            let piece = filter.substring_char(i, i + 1);
            out.append(piece);
            proof {
                assert(tail.len() >= 1);
                assert(!(tail.len() >= 2 && tail[0] == '$' && tail[1] == '$'));
                assert(seq![tail[0]] =~= filter@.subrange(i as int, i + 1));
                assert(tail.skip(1) =~= filter@.skip(i + 1));
            }
            i += 1;
        }
    }
    proof {
        assert(filter@.skip(n as int) =~= Seq::<char>::empty());
        assert(replace_placeholders_spec::<Q>(filter@.skip(n as int), index as int).0
            =~= Seq::<char>::empty());
        assert(out@ =~= out@ + replace_placeholders_spec::<Q>(
            filter@.skip(n as int),
            index as int,
        ).0);
    }
    (out, index)
}

/// How many values a filter binds: two per value predicate, one per
/// existence predicate.
pub open spec fn filter_args(f: TagFilter) -> int
    decreases f,
{
    match f {
        TagFilter::Exist(_) => 1,
        TagFilter::And(l, r) => filter_args(*l) + filter_args(*r),
        TagFilter::Or(l, r) => filter_args(*l) + filter_args(*r),
        TagFilter::Not(g) => filter_args(*g),
        _ => 2,
    }
}

/// A filter binds at least no values.
pub proof fn lemma_filter_args_nonneg(f: TagFilter)
    ensures
        filter_args(f) >= 0,
    decreases f,
{
    match f {
        TagFilter::And(l, r) => {
            lemma_filter_args_nonneg(*l);
            lemma_filter_args_nonneg(*r);
        },
        TagFilter::Or(l, r) => {
            lemma_filter_args_nonneg(*l);
            lemma_filter_args_nonneg(*r);
        },
        TagFilter::Not(g) => {
            lemma_filter_args_nonneg(*g);
        },
        _ => {},
    }
}

/// The comparison operator a value predicate compiles to.
pub open spec fn filter_op_sql(f: TagFilter) -> Seq<char> {
    match f {
        TagFilter::Eq(_, _) => ("= ")@,
        TagFilter::Neq(_, _) => ("!= ")@,
        TagFilter::Gt(_, _) => ("> ")@,
        TagFilter::Gte(_, _) => (">= ")@,
        TagFilter::Lt(_, _) => ("< ")@,
        TagFilter::Lte(_, _) => ("<= ")@,
        _ => Seq::empty(),
    }
}

/// The SQL a filter compiles to: one correlated `EXISTS` subquery against
/// the tag table per predicate, combined with `AND` / `OR` / `NOT` per the
/// tree shape.  Placeholders count on from `idx`; tag names are bound in
/// their stored (encrypted) form, values in clear.  Returns the predicate
/// text and the bound values, with the next free index `idx + filter_args`.
pub open spec fn filter_sql_spec<Q: QueryPrepare>(
    key: Option<Seq<u8>>,
    f: TagFilter,
    idx: int,
) -> (Seq<char>, Seq<ArgView>)
    decreases f,
{
    match f {
        TagFilter::Exist(n) => (
            ("EXISTS (SELECT 1 FROM items_tags it WHERE it.item_id = i.id AND it.name = ")@
                + Q::placeholder_spec(idx) + (")")@,
            seq![ArgView::Bytes(enc_field_spec(key, encode_utf8(n@)))],
        ),
        TagFilter::And(l, r) => {
            let (ls, la) = filter_sql_spec::<Q>(key, *l, idx);
            let (rs, ra) = filter_sql_spec::<Q>(key, *r, idx + filter_args(*l));
            (("(")@ + ls + (" AND ")@ + rs + (")")@, la + ra)
        },
        TagFilter::Or(l, r) => {
            let (ls, la) = filter_sql_spec::<Q>(key, *l, idx);
            let (rs, ra) = filter_sql_spec::<Q>(key, *r, idx + filter_args(*l));
            (("(")@ + ls + (" OR ")@ + rs + (")")@, la + ra)
        },
        TagFilter::Not(g) => {
            let (gs, ga) = filter_sql_spec::<Q>(key, *g, idx);
            (("NOT (")@ + gs + (")")@, ga)
        },
        _ => {
            let (n, v) = filter_name_value(f);
            (
                (
                    "EXISTS (SELECT 1 FROM items_tags it WHERE it.item_id = i.id AND it.plaintext = 1 AND it.name = "
                )@ + Q::placeholder_spec(idx) + (" AND it.value ")@ + filter_op_sql(f)
                    + Q::placeholder_spec(idx + 1) + (")")@,
                seq![
                    ArgView::Bytes(enc_field_spec(key, encode_utf8(n))),
                    ArgView::Bytes(encode_utf8(v)),
                ],
            )
        },
    }
}

/// The name and value of a value predicate.
pub open spec fn filter_name_value(f: TagFilter) -> (Seq<char>, Seq<char>) {
    match f {
        TagFilter::Eq(n, v) => (n@, v@),
        TagFilter::Neq(n, v) => (n@, v@),
        TagFilter::Gt(n, v) => (n@, v@),
        TagFilter::Gte(n, v) => (n@, v@),
        TagFilter::Lt(n, v) => (n@, v@),
        TagFilter::Lte(n, v) => (n@, v@),
        _ => (Seq::empty(), Seq::empty()),
    }
}

/// Writes one value-predicate subquery.
fn leaf_sql<Q: QueryPrepare>(
    key: &Option<StoreKey>,
    n: &String,
    v: &String,
    op: &str,
    out: &mut String,
    args: &mut Vec<QueryArg>,
    next: usize,
) -> (r: usize)
    requires
        okey_wf(*key),
        next + 2 <= usize::MAX,
    ensures
        final(out)@ == old(out)@ + (
            "EXISTS (SELECT 1 FROM items_tags it WHERE it.item_id = i.id AND it.plaintext = 1 AND it.name = "
        )@ + Q::placeholder_spec(next as int) + (" AND it.value ")@ + op@ + Q::placeholder_spec(
            next as int + 1,
        ) + (")")@,
        args_view(final(args)@) == args_view(old(args)@) + seq![
            ArgView::Bytes(enc_field_spec(okey_view(*key), encode_utf8(n@))),
            ArgView::Bytes(encode_utf8(v@)),
        ],
        r == next + 2,
{
    out.append(
        "EXISTS (SELECT 1 FROM items_tags it WHERE it.item_id = i.id AND it.plaintext = 1 AND it.name = ",
    );
    let ph = Q::place_holder(next);
    out.append(ph.as_str());
    out.append(" AND it.value ");
    out.append(op);
    let ph2 = Q::place_holder(next + 1);
    out.append(ph2.as_str());
    out.append(")");
    args.push(QueryArg::Bytes(encrypt_string_field(key, n.as_str())));
    args.push(QueryArg::Bytes(v.as_str().as_bytes_vec()));
    proof {
        assert(args_view(args@) =~= args_view(old(args)@) + seq![
            ArgView::Bytes(enc_field_spec(okey_view(*key), encode_utf8(n@))),
            ArgView::Bytes(encode_utf8(v@)),
        ]);
    }
    next + 2
}

/// Compiles a filter to its SQL predicate, binding its values onto `args`;
/// returns the next free placeholder index.
pub fn filter_sql<Q: QueryPrepare>(
    key: &Option<StoreKey>,
    f: &TagFilter,
    out: &mut String,
    args: &mut Vec<QueryArg>,
    next: usize,
) -> (r: usize)
    requires
        okey_wf(*key),
        next + filter_args(*f) <= usize::MAX,
    ensures
        ({
            let (sql, aa) = filter_sql_spec::<Q>(okey_view(*key), *f, next as int);
            &&& final(out)@ == old(out)@ + sql
            &&& args_view(final(args)@) == args_view(old(args)@) + aa
            &&& r as int == next + filter_args(*f)
        }),
    decreases *f,
{
    match f {
        TagFilter::Eq(n, v) => leaf_sql::<Q>(key, n, v, "= ", out, args, next),
        TagFilter::Neq(n, v) => leaf_sql::<Q>(key, n, v, "!= ", out, args, next),
        TagFilter::Gt(n, v) => leaf_sql::<Q>(key, n, v, "> ", out, args, next),
        TagFilter::Gte(n, v) => leaf_sql::<Q>(key, n, v, ">= ", out, args, next),
        TagFilter::Lt(n, v) => leaf_sql::<Q>(key, n, v, "< ", out, args, next),
        TagFilter::Lte(n, v) => leaf_sql::<Q>(key, n, v, "<= ", out, args, next),
        TagFilter::Exist(n) => {
            out.append("EXISTS (SELECT 1 FROM items_tags it WHERE it.item_id = i.id AND it.name = ");
            let ph = Q::place_holder(next);
            out.append(ph.as_str());
            out.append(")");
            args.push(QueryArg::Bytes(encrypt_string_field(key, n.as_str())));
            proof {
                assert(args_view(args@) =~= args_view(old(args)@) + seq![
                    ArgView::Bytes(enc_field_spec(okey_view(*key), encode_utf8(n@))),
                ]);
            }
            next + 1
        },
        TagFilter::And(l, r) => {
            proof {
                lemma_filter_args_nonneg(**l);
                lemma_filter_args_nonneg(**r);
            }
            out.append("(");
            let m = filter_sql::<Q>(key, l, out, args, next);
            out.append(" AND ");
            let m2 = filter_sql::<Q>(key, r, out, args, m);
            out.append(")");
            m2
        },
        TagFilter::Or(l, r) => {
            proof {
                lemma_filter_args_nonneg(**l);
                lemma_filter_args_nonneg(**r);
            }
            out.append("(");
            let m = filter_sql::<Q>(key, l, out, args, next);
            out.append(" OR ");
            let m2 = filter_sql::<Q>(key, r, out, args, m);
            out.append(")");
            m2
        },
        TagFilter::Not(g) => {
            proof {
                lemma_filter_args_nonneg(**g);
            }
            out.append("NOT (");
            let m = filter_sql::<Q>(key, g, out, args, next);
            out.append(")");
            m
        },
    }
}

/// How many values an optional filter binds.
pub open spec fn opt_filter_args(f: Option<TagFilter>) -> int {
    match f {
        Some(q) => filter_args(q),
        None => 0,
    }
}

/// What extending a base statement gives: the filter compiled into a
/// `WHERE`-clause predicate, then the backend's pagination clause, with
/// placeholders counting on from `idx` (one past the base statement's
/// existing values).  An empty filter leaves the base unchanged; an offset
/// without a limit still appends a bound `OFFSET`.
pub open spec fn extend_query_spec<Q: QueryPrepare>(
    base: Seq<char>,
    key: Option<Seq<u8>>,
    f: Option<TagFilter>,
    offset: Option<i64>,
    max_rows: Option<i64>,
    idx: int,
) -> (Seq<char>, Seq<ArgView>) {
    let (s1, a1, i1): (Seq<char>, Seq<ArgView>, int) = match f {
        Some(q) => {
            let (qs, qa) = filter_sql_spec::<Q>(key, q, idx);
            (base + (" AND (")@ + qs + (")")@, qa, idx + filter_args(q))
        },
        None => (base, Seq::empty(), idx),
    };
    match (max_rows, offset) {
        (None, None) => (s1, a1),
        (Some(m), None) => (
            s1 + (" LIMIT ")@ + Q::placeholder_spec(i1),
            a1 + seq![ArgView::Int(m)],
        ),
        (None, Some(o)) => (
            s1 + (" LIMIT -1 OFFSET ")@ + Q::placeholder_spec(i1),
            a1 + seq![ArgView::Int(o)],
        ),
        (Some(m), Some(o)) => (
            s1 + (" LIMIT ")@ + Q::placeholder_spec(i1) + (" OFFSET ")@ + Q::placeholder_spec(
                i1 + 1,
            ),
            a1 + seq![ArgView::Int(m), ArgView::Int(o)],
        ),
    }
}

/// Binds one integer value.
fn push_int_arg(args: &mut Vec<QueryArg>, v: i64)
    ensures
        args_view(final(args)@) == args_view(old(args)@) + seq![ArgView::Int(v)],
{
    args.push(QueryArg::Int(v));
    proof {
        assert(args_view(args@) =~= args_view(old(args)@) + seq![ArgView::Int(v)]);
    }
}

/// Extends a base statement with a compiled tag filter and the backend's
/// pagination clause, binding the filter's values, the row limit and the
/// offset onto `args` in that order.
pub fn extend_query<Q: QueryPrepare>(
    query: &str,
    key: &Option<StoreKey>,
    args: &mut Vec<QueryArg>,
    tag_filter: &Option<TagFilter>,
    offset: Option<i64>,
    max_rows: Option<i64>,
) -> (r: String)
    requires
        okey_wf(*key),
        old(args)@.len() + 3 + opt_filter_args(*tag_filter) <= usize::MAX,
    ensures
        ({
            let (sql, aa) = extend_query_spec::<Q>(
                query@,
                okey_view(*key),
                *tag_filter,
                offset,
                max_rows,
                old(args)@.len() as int + 1,
            );
            &&& r@ == sql
            &&& args_view(final(args)@) == args_view(old(args)@) + aa
        }),
{
    proof {
        match tag_filter {
            Some(q) => lemma_filter_args_nonneg(*q),
            None => (),
        }
    }
    let mut out = query.to_owned();
    let mut next = args.len() + 1;
    match tag_filter {
        Some(q) => {
            proof {
                lemma_filter_args_nonneg(*q);
            }
            out.append(" AND (");
            next = filter_sql::<Q>(key, q, &mut out, args, next);
            out.append(")");
        },
        None => {
            proof {
                assert(args_view(args@) =~= args_view(old(args)@) + Seq::<ArgView>::empty());
            }
        },
    }
    let ghost a1 = args@;
    match (max_rows, offset) {
        (None, None) => {},
        (Some(m), None) => {
            out.append(" LIMIT ");
            let ph = Q::place_holder(next);
            out.append(ph.as_str());
            push_int_arg(args, m);
        },
        (None, Some(o)) => {
            out.append(" LIMIT -1 OFFSET ");
            let ph = Q::place_holder(next);
            out.append(ph.as_str());
            push_int_arg(args, o);
        },
        (Some(m), Some(o)) => {
            out.append(" LIMIT ");
            let ph = Q::place_holder(next);
            out.append(ph.as_str());
            out.append(" OFFSET ");
            let ph2 = Q::place_holder(next + 1);
            out.append(ph2.as_str());
            push_int_arg(args, m);
            push_int_arg(args, o);
        },
    }
    proof {
        let (sql, aa) = extend_query_spec::<Q>(
            query@,
            okey_view(*key),
            *tag_filter,
            offset,
            max_rows,
            old(args)@.len() as int + 1,
        );
        assert(out@ =~= sql);
        assert(args_view(args@) =~= args_view(old(args)@) + aa);
    }
    out
}

/// Evaluates a filter against one entry's stored tag set.
pub fn filter_eval(key: &Option<StoreKey>, f: &TagFilter, tags: &Vec<KvEncTag>) -> (r: bool)
    requires
        okey_wf(*key),
    ensures
        r == filter_matches(okey_view(*key), *f, enc_tags_view(tags@)),
    decreases *f,
{
    match f {
        TagFilter::Eq(n, v) => eval_leaf(key, tags, n, v, false, true, false),
        TagFilter::Neq(n, v) => eval_leaf(key, tags, n, v, true, false, true),
        TagFilter::Gt(n, v) => eval_leaf(key, tags, n, v, false, false, true),
        TagFilter::Gte(n, v) => eval_leaf(key, tags, n, v, false, true, true),
        TagFilter::Lt(n, v) => eval_leaf(key, tags, n, v, true, false, false),
        TagFilter::Lte(n, v) => eval_leaf(key, tags, n, v, true, true, false),
        TagFilter::Exist(n) => eval_exist(key, tags, n),
        TagFilter::And(l, r) => filter_eval(key, l, tags) && filter_eval(key, r, tags),
        TagFilter::Or(l, r) => filter_eval(key, l, tags) || filter_eval(key, r, tags),
        TagFilter::Not(g) => !filter_eval(key, g, tags),
    }
}

} // verus!
