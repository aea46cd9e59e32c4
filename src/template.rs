//! Template namespaces built from JSON payloads, and rendering through
//! `${{ ... }}` templates.

use srtemplate::SrTemplate;
use vstd::prelude::*;
use vstd::utf8::is_ascii_chars;

verus! {

/// A JSON value, numbers kept as their text.
pub enum Json {
    Null,
    Bool(bool),
    Number(String),
    Str(String),
    Array(Vec<Json>),
    Object(Vec<(String, Json)>),
}

/// The text a scalar is bound as; containers have none.
pub open spec fn scalar_text(j: Json) -> Option<Seq<char>> {
    match j {
        Json::Null => Some("null"@),
        Json::Bool(b) => Some(
            if b {
                "true"@
            } else {
                "false"@
            },
        ),
        Json::Number(n) => Some(n@),
        Json::Str(s) => Some(s@),
        _ => None,
    }
}

/// The decimal digit for a value below ten.
pub open spec fn digit_char(d: nat) -> char {
    ((d + 48) as u8) as char
}

/// Decimal text of a natural number, without leading zeros.
pub open spec fn decimal(n: nat) -> Seq<char>
    decreases n,
{
    if n < 10 {
        seq![digit_char(n)]
    } else {
        decimal(n / 10).push(digit_char(n % 10))
    }
}

/// The path of an object member: the key alone at the top, else joined
/// to the parent's path by a dot.
pub open spec fn member_path(prefix: Seq<char>, key: Seq<char>) -> Seq<char> {
    if prefix.len() == 0 {
        key
    } else {
        prefix + seq!['.'] + key
    }
}

/// The path of an array element: the parent's path and the index in
/// brackets.
pub open spec fn element_path(prefix: Seq<char>, i: nat) -> Seq<char> {
    prefix + seq!['['] + decimal(i) + seq![']']
}

/// The bindings of a JSON value at `prefix`, depth first, in the value's
/// own order: each scalar bound at its path as its text.
pub open spec fn flatten(j: Json, prefix: Seq<char>) -> Seq<(Seq<char>, Seq<char>)>
    decreases j, 0int,
{
    match j {
        Json::Array(items) => element_bindings(items@, prefix, items@.len() as int),
        Json::Object(fields) => member_bindings(fields@, prefix, fields@.len() as int),
        _ => seq![(prefix, scalar_text(j)->0)],
    }
}

/// The bindings of the first `k` elements of an array at `prefix`.
pub open spec fn element_bindings(items: Seq<Json>, prefix: Seq<char>, k: int) -> Seq<
    (Seq<char>, Seq<char>),
>
    decreases items, k,
{
    if k <= 0 || k > items.len() {
        Seq::empty()
    } else {
        element_bindings(items, prefix, k - 1) + flatten(
            items[k - 1],
            element_path(prefix, (k - 1) as nat),
        )
    }
}

/// The bindings of the first `k` members of an object at `prefix`.
pub open spec fn member_bindings(fields: Seq<(String, Json)>, prefix: Seq<char>, k: int) -> Seq<
    (Seq<char>, Seq<char>),
>
    decreases fields, k,
{
    if k <= 0 || k > fields.len() {
        Seq::empty()
    } else {
        member_bindings(fields, prefix, k - 1) + flatten(
            fields[k - 1].1,
            member_path(prefix, fields[k - 1].0@),
        )
    }
}

/// The texts of a list of bindings.
pub open spec fn pairs(v: Seq<(String, String)>) -> Seq<(Seq<char>, Seq<char>)> {
    v.map_values(|b: (String, String)| (b.0@, b.1@))
}

fn digit_text(d: usize) -> (r: &'static str)
    requires
        d < 10,
    ensures
        r@ == seq![digit_char(d as nat)],
{
    proof {
        reveal_strlit("0");
        reveal_strlit("1");
        reveal_strlit("2");
        reveal_strlit("3");
        reveal_strlit("4");
        reveal_strlit("5");
        reveal_strlit("6");
        reveal_strlit("7");
        reveal_strlit("8");
        reveal_strlit("9");
    }
    match d {
        0 => "0",
        1 => "1",
        2 => "2",
        3 => "3",
        4 => "4",
        5 => "5",
        6 => "6",
        7 => "7",
        8 => "8",
        _ => "9",
    }
}

/// The decimal text of `n`.
fn decimal_text(n: usize) -> (r: String)
    ensures
        r@ == decimal(n as nat),
    decreases n,
{
    if n < 10 {
        digit_text(n).to_string()
    } else {
        let mut s = decimal_text(n / 10);
        s.append(digit_text(n % 10));
        s
    }
}

fn scalar_value(j: &Json) -> (r: String)
    requires
        scalar_text(*j) is Some,
    ensures
        r@ == scalar_text(*j)->0,
{
    match j {
        Json::Null => "null".to_string(),
        Json::Bool(b) => if *b {
            "true".to_string()
        } else {
            "false".to_string()
        },
        Json::Number(n) => n.clone(),
        Json::Str(t) => t.clone(),
        _ => String::new(),
    }
}

fn element_key(prefix: &String, i: usize) -> (r: String)
    ensures
        r@ == element_path(prefix@, i as nat),
{
    proof {
        reveal_strlit("[");
        reveal_strlit("]");
    }
    let mut k = prefix.clone();
    k.append("[");
    let d = decimal_text(i);
    k.append(d.as_str());
    k.append("]");
    assert(k@ =~= element_path(prefix@, i as nat));
    k
}

fn member_key(prefix: &String, key: &String) -> (r: String)
    ensures
        r@ == member_path(prefix@, key@),
{
    if prefix.as_str().is_empty() {
        key.clone()
    } else {
        proof {
            reveal_strlit(".");
        }
        let mut k = prefix.clone();
        k.append(".");
        k.append(key.as_str());
        assert(k@ =~= member_path(prefix@, key@));
        k
    }
}

/// Appends the bindings of `j` at `prefix` to `out`.
pub fn process_value(j: &Json, prefix: &String, out: &mut Vec<(String, String)>)
    ensures
        pairs(final(out)@) == pairs(old(out)@) + flatten(*j, prefix@),
    decreases j,
{
    match j {
        Json::Array(items) => {
            let mut i: usize = 0;
            while i < items.len()
                invariant
                    i <= items@.len(),
                    *j is Array,
                    *items == (*j)->Array_0,
                    pairs(out@) == pairs(old(out)@) + element_bindings(items@, prefix@, i as int),
                decreases items@.len() - i,
            {
                let key = element_key(prefix, i);
                proof {
                    assert(decreases_to!(*j => (*j)->Array_0));
                    assert(decreases_to!(*items => items@));
                    assert(decreases_to!(items@ => items@[i as int]));
                }
                process_value(&items[i], &key, out);
                assert(pairs(out@) =~= pairs(old(out)@) + element_bindings(items@, prefix@, i + 1));
                i = i + 1;
            }
        },
        Json::Object(fields) => {
            let mut i: usize = 0;
            while i < fields.len()
                invariant
                    i <= fields@.len(),
                    *j is Object,
                    *fields == (*j)->Object_0,
                    pairs(out@) == pairs(old(out)@) + member_bindings(fields@, prefix@, i as int),
                decreases fields@.len() - i,
            {
                let (name, value) = &fields[i];
                let key = member_key(prefix, name);
                proof {
                    assert(decreases_to!(*j => (*j)->Object_0));
                    assert(decreases_to!(*fields => fields@));
                    assert(decreases_to!(fields@ => fields@[i as int]));
                    assert(decreases_to!(fields@[i as int] => fields@[i as int].1));
                }
                process_value(value, &key, out);
                assert(pairs(out@) =~= pairs(old(out)@) + member_bindings(fields@, prefix@, i + 1));
                i = i + 1;
            }
        },
        _ => {
            let v = scalar_value(j);
            out.push((prefix.clone(), v));
            assert(pairs(out@) =~= pairs(old(out)@) + flatten(*j, prefix@));
        },
    }
}

/// What the template engine renders `text` to, with the given delimiters
/// and the bindings added in order; `None` when rendering fails.
pub uninterp spec fn rendered(
    open: Seq<char>,
    close: Seq<char>,
    vars: Seq<(Seq<char>, Seq<char>)>,
    text: Seq<char>,
) -> Option<Seq<char>>;

/// Some stretch of `s` is `p`.
pub open spec fn occurs_in(p: Seq<char>, s: Seq<char>) -> bool {
    exists|i: int| 0 <= i && i + p.len() <= s.len() && #[trigger] s.subrange(i, i + p.len()) == p
}

/// The number of opening parentheses in `s`.
pub open spec fn paren_count(s: Seq<char>) -> nat
    decreases s.len(),
{
    if s.len() == 0 {
        0
    } else {
        paren_count(s.drop_last()) + if s.last() == '(' {
            1nat
        } else {
            0nat
        }
    }
}

/// The most opening parentheses a template may hold: the engine parses and
/// evaluates nested calls by recursion, one level per parenthesis at most.
pub const MAX_TEMPLATE_PARENS: usize = 512;

/// A template the engine takes without fault: plain ASCII with a bounded
/// number of opening parentheses, or holding no opening delimiter at all.
/// The engine reports syntax errors by slicing at byte offsets counted as
/// characters, which breaks on other text.
pub open spec fn template_safe(open: Seq<char>, text: Seq<char>) -> bool {
    (is_ascii_chars(text) && paren_count(text) <= MAX_TEMPLATE_PARENS) || !occurs_in(open, text)
}

/// Whether ASCII text holds at most `limit` opening parentheses.
fn parens_within(text: &str, limit: usize) -> (r: bool)
    requires
        is_ascii_chars(text@),
    ensures
        r == (paren_count(text@) <= limit),
{
    proof {
        vstd::string::is_ascii_spec_bytes(text);
    }
    let bytes = text.as_bytes();
    assert(bytes@ =~= Seq::new(text@.len(), |i| text@[i] as u8));
    let mut count: usize = 0;
    let mut i: usize = 0;
    while i < bytes.len()
        invariant
            bytes@ == Seq::new(text@.len(), |i| text@[i] as u8),
            is_ascii_chars(text@),
            i <= bytes@.len(),
            count == paren_count(text@.subrange(0, i as int)),
            count <= limit,
        decreases bytes@.len() - i,
    {
        let ghost upto = text@.subrange(0, i + 1);
        assert(upto.drop_last() =~= text@.subrange(0, i as int));
        let ghost c = text@[i as int];
        assert(0 <= c as u32 <= 127);
        assert((bytes@[i as int] == 40u8) == (c == '('));
        if bytes[i] == 40u8 {
            if count == limit {
                proof {
                    lemma_paren_count_grows(text@, i as int + 1);
                }
                return false;
            }
            count = count + 1;
        }
        i = i + 1;
    }
    assert(text@.subrange(0, text@.len() as int) =~= text@);
    true
}

proof fn lemma_paren_count_grows(s: Seq<char>, k: int)
    requires
        0 <= k <= s.len(),
    ensures
        paren_count(s.subrange(0, k)) <= paren_count(s),
    decreases s.len() - k,
{
    if k < s.len() {
        lemma_paren_count_grows(s, k + 1);
        assert(s.subrange(0, k + 1).drop_last() =~= s.subrange(0, k));
    } else {
        assert(s.subrange(0, k) =~= s);
    }
}

/// Relies on `str::contains` with a string pattern: true exactly when some
/// stretch of `s` equals `p`.
#[verifier::external_body]
fn contains_text(s: &str, p: &str) -> (r: bool)
    ensures
        r == occurs_in(p@, s@),
{
    s.contains(p)
}

/// Relies on srtemplate::SrTemplate, built with its `text` feature alone:
/// without `os` templates cannot read the environment, and without `math`
/// no template function does arithmetic that can panic. `with_delimiter`,
/// then `add_variable` for each binding in order (a later binding of a
/// name replaces an earlier one), then `render`, which fails on bad syntax
/// or an unbound name. The result depends on these values alone. Only the
/// delimiters `${{` and `}}` are admitted: with an empty opening delimiter
/// the parser never advances, and with one made of newlines its error
/// report never returns. A syntax error in non-ASCII text slices a string
/// off a character boundary, and deeply nested calls exhaust the stack:
/// those texts are left out too.
#[verifier::external_body]
fn render_with(open: &str, close: &str, vars: &Vec<(String, String)>, text: &str) -> (r: Option<
    String,
>)
    requires
        open@ == "${{"@,
        close@ == "}}"@,
        template_safe(open@, text@),
    ensures
        match r {
            Some(s) => rendered(open@, close@, pairs(vars@), text@) == Some(s@),
            None => rendered(open@, close@, pairs(vars@), text@) is None,
        },
{
    let ctx = SrTemplate::with_delimiter(open, close);
    for (name, value) in vars {
        ctx.add_variable(name.as_str(), value.as_str());
    }
    ctx.render(text).ok()
}

/// What a `${{ name }}` template renders to under the given bindings;
/// `None` when it does not render, or is not a template the engine can
/// take safely.
pub open spec fn render_spec(vars: Seq<(Seq<char>, Seq<char>)>, text: Seq<char>) -> Option<
    Seq<char>,
> {
    if template_safe("${{"@, text) {
        rendered("${{"@, "}}"@, vars, text)
    } else {
        None
    }
}

/// The variables a template may refer to: `event.type` and the flattened
/// payload under `event`. A later binding of a path wins over an earlier
/// one.
pub struct Namespace {
    pub bindings: Vec<(String, String)>,
}

/// The bindings of a delivery: its event type, then its payload flattened
/// under `event`.
pub open spec fn delivery_bindings(event_type: Seq<char>, payload: Json) -> Seq<
    (Seq<char>, Seq<char>),
> {
    seq![("event.type"@, event_type)] + flatten(payload, "event"@)
}

impl Namespace {
    /// The namespace of a delivery.
    pub fn build(event_type: &str, payload: &Json) -> (r: Namespace)
        ensures
            pairs(r.bindings@) == delivery_bindings(event_type@, *payload),
    {
        let mut bindings: Vec<(String, String)> = Vec::new();
        bindings.push(("event.type".to_string(), event_type.to_string()));
        assert(pairs(bindings@) =~= seq![("event.type"@, event_type@)]);
        let prefix = "event".to_string();
        process_value(payload, &prefix, &mut bindings);
        Namespace { bindings }
    }

    /// Renders a `${{ name }}` template against this namespace. Text that
    /// holds `${{` renders only when it is ASCII with at most
    /// [`MAX_TEMPLATE_PARENS`] opening parentheses; text without it always
    /// renders to itself in the engine.
    pub fn render(&self, text: &str) -> (r: Option<String>)
        ensures
            match r {
                Some(s) => render_spec(pairs(self.bindings@), text@) == Some(s@),
                None => render_spec(pairs(self.bindings@), text@) is None,
            },
    {
        proof {
            reveal_strlit("${{");
            reveal_strlit("}}");
        }
        if (text.is_ascii() && parens_within(text, MAX_TEMPLATE_PARENS)) || !contains_text(
            text,
            "${{",
        ) {
            render_with("${{", "}}", &self.bindings, text)
        } else {
            None
        }
    }
}

/// Renders a webhook secret with `event.type` bound, so that secrets may
/// differ by event type; a secret that does not render is used literally.
/// That includes a secret holding `${{` that is not ASCII, or that has more
/// than [`MAX_TEMPLATE_PARENS`] opening parentheses.
pub fn render_secret(secret: &str, event_type: &str) -> (r: String)
    ensures
        r@ == match render_spec(seq![("event.type"@, event_type@)], secret@) {
            Some(s) => s,
            None => secret@,
        },
{
    let mut bindings: Vec<(String, String)> = Vec::new();
    bindings.push(("event.type".to_string(), event_type.to_string()));
    assert(pairs(bindings@) =~= seq![("event.type"@, event_type@)]);
    let ns = Namespace { bindings };
    match ns.render(secret) {
        Some(s) => s,
        None => secret.to_string(),
    }
}

/// Unicode `White_Space` characters.
pub open spec fn is_white(c: char) -> bool {
    let u = c as u32;
    ||| 9 <= u <= 13
    ||| u == 32
    ||| u == 0x85
    ||| u == 0xA0
    ||| u == 0x1680
    ||| 0x2000 <= u <= 0x200A
    ||| u == 0x2028
    ||| u == 0x2029
    ||| u == 0x202F
    ||| u == 0x205F
    ||| u == 0x3000
}

/// `s` without leading white space.
pub open spec fn trim_front(s: Seq<char>) -> Seq<char>
    decreases s.len(),
{
    if s.len() > 0 && is_white(s[0]) {
        trim_front(s.drop_first())
    } else {
        s
    }
}

/// `s` without trailing white space.
pub open spec fn trim_back(s: Seq<char>) -> Seq<char>
    decreases s.len(),
{
    if s.len() > 0 && is_white(s.last()) {
        trim_back(s.drop_last())
    } else {
        s
    }
}

/// `s` without leading or trailing white space.
pub open spec fn trimmed(s: Seq<char>) -> Seq<char> {
    trim_back(trim_front(s))
}

/// Relies on `str::trim`: removes leading and trailing characters with the
/// Unicode `White_Space` property.
#[verifier::external_body]
pub(crate) fn trim_text(s: &str) -> (r: &str)
    ensures
        r@ == trimmed(s@),
{
    s.trim()
}

/// One step from a JSON value to one of its children.
pub enum Step {
    /// The member at this position of an object.
    Member(nat),
    /// The element at this index of an array.
    Element(nat),
}

/// The text of the scalar reached from `j` by `steps`, if they lead to one.
pub open spec fn leaf_at(j: Json, steps: Seq<Step>) -> Option<Seq<char>>
    decreases steps.len(),
{
    if steps.len() == 0 {
        scalar_text(j)
    } else {
        match steps[0] {
            Step::Element(i) => match j {
                Json::Array(items) => if i < items@.len() {
                    leaf_at(items@[i as int], steps.drop_first())
                } else {
                    None
                },
                _ => None,
            },
            Step::Member(i) => match j {
                Json::Object(fields) => if i < fields@.len() {
                    leaf_at(fields@[i as int].1, steps.drop_first())
                } else {
                    None
                },
                _ => None,
            },
        }
    }
}

/// The dotted and indexed path that `steps` spell from `j` at `prefix`.
pub open spec fn leaf_path(j: Json, prefix: Seq<char>, steps: Seq<Step>) -> Seq<char>
    decreases steps.len(),
{
    if steps.len() == 0 {
        prefix
    } else {
        match steps[0] {
            Step::Element(i) => match j {
                Json::Array(items) => if i < items@.len() {
                    leaf_path(items@[i as int], element_path(prefix, i), steps.drop_first())
                } else {
                    prefix
                },
                _ => prefix,
            },
            Step::Member(i) => match j {
                Json::Object(fields) => if i < fields@.len() {
                    leaf_path(
                        fields@[i as int].1,
                        member_path(prefix, fields@[i as int].0@),
                        steps.drop_first(),
                    )
                } else {
                    prefix
                },
                _ => prefix,
            },
        }
    }
}

proof fn lemma_element_bindings_hold(
    items: Seq<Json>,
    prefix: Seq<char>,
    k: int,
    i: int,
    b: (Seq<char>, Seq<char>),
)
    requires
        0 <= i < k <= items.len(),
        flatten(items[i], element_path(prefix, i as nat)).contains(b),
    ensures
        element_bindings(items, prefix, k).contains(b),
    decreases k,
{
    let left = element_bindings(items, prefix, k - 1);
    let right = flatten(items[k - 1], element_path(prefix, (k - 1) as nat));
    if i == k - 1 {
        let m = choose|m: int| 0 <= m < right.len() && right[m] == b;
        assert((left + right)[left.len() + m] == b);
    } else {
        lemma_element_bindings_hold(items, prefix, k - 1, i, b);
        let m = choose|m: int| 0 <= m < left.len() && left[m] == b;
        assert((left + right)[m] == b);
    }
}

proof fn lemma_member_bindings_hold(
    fields: Seq<(String, Json)>,
    prefix: Seq<char>,
    k: int,
    i: int,
    b: (Seq<char>, Seq<char>),
)
    requires
        0 <= i < k <= fields.len(),
        flatten(fields[i].1, member_path(prefix, fields[i].0@)).contains(b),
    ensures
        member_bindings(fields, prefix, k).contains(b),
    decreases k,
{
    let left = member_bindings(fields, prefix, k - 1);
    let right = flatten(fields[k - 1].1, member_path(prefix, fields[k - 1].0@));
    if i == k - 1 {
        let m = choose|m: int| 0 <= m < right.len() && right[m] == b;
        assert((left + right)[left.len() + m] == b);
    } else {
        lemma_member_bindings_hold(fields, prefix, k - 1, i, b);
        let m = choose|m: int| 0 <= m < left.len() && left[m] == b;
        assert((left + right)[m] == b);
    }
}

/// Every scalar of a JSON value is bound by flattening, at the path that
/// the steps leading to it spell, to its text.
pub proof fn lemma_every_leaf_bound(j: Json, prefix: Seq<char>, steps: Seq<Step>)
    requires
        leaf_at(j, steps) is Some,
    ensures
        flatten(j, prefix).contains((leaf_path(j, prefix, steps), leaf_at(j, steps)->0)),
    decreases steps.len(),
{
    if steps.len() == 0 {
        assert(flatten(j, prefix)[0] == (prefix, scalar_text(j)->0));
    } else {
        match steps[0] {
            Step::Element(i) => match j {
                Json::Array(items) => {
                    let child = element_path(prefix, i);
                    lemma_every_leaf_bound(items@[i as int], child, steps.drop_first());
                    lemma_element_bindings_hold(
                        items@,
                        prefix,
                        items@.len() as int,
                        i as int,
                        (leaf_path(j, prefix, steps), leaf_at(j, steps)->0),
                    );
                },
                _ => {},
            },
            Step::Member(i) => match j {
                Json::Object(fields) => {
                    let child = member_path(prefix, fields@[i as int].0@);
                    lemma_every_leaf_bound(fields@[i as int].1, child, steps.drop_first());
                    lemma_member_bindings_hold(
                        fields@,
                        prefix,
                        fields@.len() as int,
                        i as int,
                        (leaf_path(j, prefix, steps), leaf_at(j, steps)->0),
                    );
                },
                _ => {},
            },
        }
    }
}

/// A key that can be told apart inside a path: it holds no `.` and no `[`.
pub open spec fn plain_key(k: Seq<char>) -> bool {
    forall|m: int| 0 <= m < k.len() ==> #[trigger] k[m] != '.' && k[m] != '['
}

/// Every object inside `j` has plain keys, no two of them equal.
pub open spec fn plain_keys(j: Json) -> bool
    decreases j,
{
    match j {
        Json::Array(items) => forall|i: int| 0 <= i < items@.len() ==> plain_keys(#[trigger] items@[i]),
        Json::Object(fields) => {
            &&& forall|i: int|
                0 <= i < fields@.len() ==> plain_key(#[trigger] fields@[i].0@) && plain_keys(
                    fields@[i].1,
                )
            &&& forall|i: int, k: int|
                0 <= i < k < fields@.len() ==> (#[trigger] fields@[i]).0@ != (#[trigger] fields@[k]).0@
        },
        _ => true,
    }
}

proof fn lemma_decimal_digits(n: nat)
    ensures
        decimal(n).len() >= 1,
        forall|m: int| 0 <= m < decimal(n).len() ==> 48 <= (#[trigger] decimal(n)[m]) as u32 <= 57,
    decreases n,
{
    if n >= 10 {
        lemma_decimal_digits(n / 10);
    }
}

proof fn lemma_decimal_injective(n: nat, m: nat)
    requires
        decimal(n) == decimal(m),
    ensures
        n == m,
    decreases n,
{
    if n >= 10 {
        lemma_decimal_digits(n / 10);
    }
    if m >= 10 {
        lemma_decimal_digits(m / 10);
    }
    if n < 10 && m < 10 {
        assert(decimal(n)[0] == digit_char(n));
        assert(decimal(m)[0] == digit_char(m));
    } else if n >= 10 && m >= 10 {
        assert(decimal(n).drop_last() =~= decimal(n / 10));
        assert(decimal(m).drop_last() =~= decimal(m / 10));
        lemma_decimal_injective(n / 10, m / 10);
        assert(decimal(n)[decimal(n).len() - 1] == digit_char(n % 10));
        assert(decimal(m)[decimal(m).len() - 1] == digit_char(m % 10));
        assert(digit_char(n % 10) == digit_char(m % 10));
        assert(n % 10 == m % 10);
        assert(n == 10 * (n / 10) + n % 10);
        assert(m == 10 * (m / 10) + m % 10);
    } else if n < 10 {
        assert(decimal(m).len() == decimal(m / 10).len() + 1);
    } else {
        assert(decimal(n).len() == decimal(n / 10).len() + 1);
    }
}

proof fn lemma_leaf_path_extends(j: Json, prefix: Seq<char>, steps: Seq<Step>)
    requires
        prefix.len() > 0,
        leaf_at(j, steps) is Some,
    ensures
        leaf_path(j, prefix, steps).len() >= prefix.len(),
        leaf_path(j, prefix, steps).subrange(0, prefix.len() as int) == prefix,
        leaf_path(j, prefix, steps).len() > prefix.len() ==> leaf_path(j, prefix, steps)[prefix.len(
        ) as int] == '.' || leaf_path(j, prefix, steps)[prefix.len() as int] == '[',
    decreases steps.len(),
{
    if steps.len() > 0 {
        let q = leaf_path(j, prefix, steps);
        match steps[0] {
            Step::Element(i) => match j {
                Json::Array(items) => {
                    let c = element_path(prefix, i);
                    lemma_leaf_path_extends(items@[i as int], c, steps.drop_first());
                    assert(q.subrange(0, c.len() as int) == c);
                    assert(q.subrange(0, prefix.len() as int) =~= c.subrange(0, prefix.len() as int));
                    assert(c.subrange(0, prefix.len() as int) =~= prefix);
                    assert(q[prefix.len() as int] == c[prefix.len() as int]);
                },
                _ => {},
            },
            Step::Member(i) => match j {
                Json::Object(fields) => {
                    let c = member_path(prefix, fields@[i as int].0@);
                    lemma_leaf_path_extends(fields@[i as int].1, c, steps.drop_first());
                    assert(q.subrange(0, c.len() as int) == c);
                    assert(q.subrange(0, prefix.len() as int) =~= c.subrange(0, prefix.len() as int));
                    assert(c.subrange(0, prefix.len() as int) =~= prefix);
                    assert(q[prefix.len() as int] == c[prefix.len() as int]);
                },
                _ => {},
            },
        }
    } else {
        assert(leaf_path(j, prefix, steps).subrange(0, prefix.len() as int) =~= prefix);
    }
}

/// For a value whose objects have plain, distinct keys, flattened at a
/// non-empty prefix, two different scalars never share a path.
pub proof fn lemma_leaf_paths_distinct(j: Json, prefix: Seq<char>, s1: Seq<Step>, s2: Seq<Step>)
    requires
        prefix.len() > 0,
        plain_keys(j),
        leaf_at(j, s1) is Some,
        leaf_at(j, s2) is Some,
        s1 != s2,
    ensures
        leaf_path(j, prefix, s1) != leaf_path(j, prefix, s2),
    decreases s1.len(),
{
    if s1.len() == 0 && s2.len() == 0 {
        assert(s1 =~= s2);
    } else if s1.len() == 0 || s2.len() == 0 {
        assert(scalar_text(j) is Some);
    } else {
        let r1 = s1.drop_first();
        let r2 = s2.drop_first();
        let q1 = leaf_path(j, prefix, s1);
        let q2 = leaf_path(j, prefix, s2);
        let n = prefix.len() as int;
        match j {
            Json::Array(items) => {
                let i1 = s1[0]->Element_0;
                let i2 = s2[0]->Element_0;
                let c1 = element_path(prefix, i1);
                let c2 = element_path(prefix, i2);
                if i1 == i2 {
                    if r1 == r2 {
                        assert(s1[0] == s2[0]);
                        assert(s1.len() == r1.len() + 1 && s2.len() == r2.len() + 1);
                        assert forall|k: int| 0 <= k < s1.len() implies s1[k] == s2[k] by {
                            if k > 0 {
                                assert(s1[k] == r1[k - 1]);
                                assert(s2[k] == r2[k - 1]);
                            }
                        }
                        assert(s1 =~= s2);
                    }
                    assert(s1[0] is Element && i1 < items@.len());
                    assert(plain_keys(items@[i1 as int]));
                    lemma_leaf_paths_distinct(items@[i1 as int], c1, r1, r2);
                } else {
                    lemma_leaf_path_extends(items@[i1 as int], c1, r1);
                    lemma_leaf_path_extends(items@[i2 as int], c2, r2);
                    lemma_elements_diverge(prefix, i1, i2, q1, q2);
                }
            },
            Json::Object(fields) => {
                let i1 = s1[0]->Member_0 as int;
                let i2 = s2[0]->Member_0 as int;
                let k1 = fields@[i1].0@;
                let k2 = fields@[i2].0@;
                let c1 = member_path(prefix, k1);
                let c2 = member_path(prefix, k2);
                assert(plain_key(k1) && plain_keys(fields@[i1].1));
                assert(plain_key(k2) && plain_keys(fields@[i2].1));
                if i1 == i2 {
                    if r1 == r2 {
                        assert(s1[0] == s2[0]);
                        assert(s1.len() == r1.len() + 1 && s2.len() == r2.len() + 1);
                        assert forall|k: int| 0 <= k < s1.len() implies s1[k] == s2[k] by {
                            if k > 0 {
                                assert(s1[k] == r1[k - 1]);
                                assert(s2[k] == r2[k - 1]);
                            }
                        }
                        assert(s1 =~= s2);
                    }
                    lemma_leaf_paths_distinct(fields@[i1].1, c1, r1, r2);
                } else {
                    if i1 < i2 {
                        assert(fields@[i1].0@ != fields@[i2].0@);
                    } else {
                        assert(fields@[i2].0@ != fields@[i1].0@);
                    }
                    lemma_leaf_path_extends(fields@[i1].1, c1, r1);
                    lemma_leaf_path_extends(fields@[i2].1, c2, r2);
                    lemma_members_diverge(prefix, k1, k2, q1, q2);
                }
            },
            _ => {},
        }
    }
}

/// `key` starts with `c`, and whatever follows begins a new step.
pub open spec fn extends_at(key: Seq<char>, c: Seq<char>) -> bool {
    &&& key.len() >= c.len()
    &&& key.subrange(0, c.len() as int) == c
    &&& key.len() > c.len() ==> (key[c.len() as int] == '.' || key[c.len() as int] == '[')
}

proof fn lemma_extends_trans(x: Seq<char>, c: Seq<char>, p: Seq<char>)
    requires
        extends_at(x, c),
        extends_at(c, p),
    ensures
        extends_at(x, p),
{
    assert(x.subrange(0, p.len() as int) =~= c.subrange(0, p.len() as int)) by {
        assert forall|t: int| 0 <= t < p.len() implies x[t] == c[t] by {
            assert(x.subrange(0, c.len() as int)[t] == c[t]);
        }
    }
    if x.len() > p.len() && c.len() > p.len() {
        assert(x.subrange(0, c.len() as int)[p.len() as int] == c[p.len() as int]);
    }
}

proof fn lemma_child_paths_extend(p: Seq<char>, i: nat, key: Seq<char>)
    requires
        p.len() > 0,
    ensures
        extends_at(element_path(p, i), p),
        extends_at(member_path(p, key), p),
{
    assert(element_path(p, i).subrange(0, p.len() as int) =~= p);
    assert(member_path(p, key).subrange(0, p.len() as int) =~= p);
}

proof fn lemma_elements_diverge(p: Seq<char>, i: nat, k: nat, x: Seq<char>, y: Seq<char>)
    requires
        i != k,
        extends_at(x, element_path(p, i)),
        extends_at(y, element_path(p, k)),
    ensures
        x != y,
{
    let c1 = element_path(p, i);
    let c2 = element_path(p, k);
    let d1 = decimal(i);
    let d2 = decimal(k);
    let n = p.len() as int;
    lemma_decimal_digits(i);
    lemma_decimal_digits(k);
    if x == y {
        assert forall|t: int| 0 <= t < c1.len() implies x[t] == c1[t] by {
            assert(x.subrange(0, c1.len() as int)[t] == c1[t]);
        }
        assert forall|t: int| 0 <= t < c2.len() implies y[t] == c2[t] by {
            assert(y.subrange(0, c2.len() as int)[t] == c2[t]);
        }
        if d1.len() < d2.len() {
            assert(c1[n + 1 + d1.len()] == ']');
            assert(c2[n + 1 + d1.len()] == d2[d1.len() as int]);
        } else if d2.len() < d1.len() {
            assert(c2[n + 1 + d2.len()] == ']');
            assert(c1[n + 1 + d2.len()] == d1[d2.len() as int]);
        } else {
            assert forall|t: int| 0 <= t < d1.len() implies d1[t] == d2[t] by {
                assert(c1[n + 1 + t] == d1[t]);
                assert(c2[n + 1 + t] == d2[t]);
            }
            assert(d1 =~= d2);
            lemma_decimal_injective(i, k);
        }
    }
}

proof fn lemma_members_diverge(p: Seq<char>, k1: Seq<char>, k2: Seq<char>, x: Seq<char>, y: Seq<char>)
    requires
        p.len() > 0,
        plain_key(k1),
        plain_key(k2),
        k1 != k2,
        extends_at(x, member_path(p, k1)),
        extends_at(y, member_path(p, k2)),
    ensures
        x != y,
{
    let c1 = member_path(p, k1);
    let c2 = member_path(p, k2);
    let n = p.len() as int;
    if x == y {
        assert forall|t: int| 0 <= t < c1.len() implies x[t] == c1[t] by {
            assert(x.subrange(0, c1.len() as int)[t] == c1[t]);
        }
        assert forall|t: int| 0 <= t < c2.len() implies y[t] == c2[t] by {
            assert(y.subrange(0, c2.len() as int)[t] == c2[t]);
        }
        if k1.len() < k2.len() {
            let t = n + 1 + k1.len();
            assert(c2[t] == k2[k1.len() as int]);
            if x.len() > c1.len() {
                assert(x[t] == '.' || x[t] == '[');
            }
        } else if k2.len() < k1.len() {
            let t = n + 1 + k2.len();
            assert(c1[t] == k1[k2.len() as int]);
            if y.len() > c2.len() {
                assert(y[t] == '.' || y[t] == '[');
            }
        } else {
            assert forall|t: int| 0 <= t < k1.len() implies k1[t] == k2[t] by {
                assert(c1[n + 1 + t] == k1[t]);
                assert(c2[n + 1 + t] == k2[t]);
            }
            assert(k1 =~= k2);
        }
    }
}

proof fn lemma_flatten_key_extends(j: Json, p: Seq<char>, m: int)
    requires
        p.len() > 0,
        0 <= m < flatten(j, p).len(),
    ensures
        extends_at(flatten(j, p)[m].0, p),
    decreases j, 0int,
{
    match j {
        Json::Array(items) => {
            let i = lemma_element_owner(items@, p, items@.len() as int, m);
            lemma_child_paths_extend(p, i as nat, Seq::empty());
            lemma_extends_trans(flatten(j, p)[m].0, element_path(p, i as nat), p);
        },
        Json::Object(fields) => {
            let i = lemma_member_owner(fields@, p, fields@.len() as int, m);
            lemma_child_paths_extend(p, 0, fields@[i].0@);
            lemma_extends_trans(flatten(j, p)[m].0, member_path(p, fields@[i].0@), p);
        },
        _ => {
            assert(flatten(j, p)[m].0 == p);
            assert(p.subrange(0, p.len() as int) =~= p);
        },
    }
}

proof fn lemma_element_owner(items: Seq<Json>, p: Seq<char>, k: int, m: int) -> (i: int)
    requires
        p.len() > 0,
        0 <= k <= items.len(),
        0 <= m < element_bindings(items, p, k).len(),
    ensures
        0 <= i < k,
        extends_at(element_bindings(items, p, k)[m].0, element_path(p, i as nat)),
    decreases items, k,
{
    let left = element_bindings(items, p, k - 1);
    let c = element_path(p, (k - 1) as nat);
    if m < left.len() {
        lemma_element_owner(items, p, k - 1, m)
    } else {
        lemma_child_paths_extend(p, (k - 1) as nat, Seq::empty());
        lemma_flatten_key_extends(items[k - 1], c, m - left.len());
        k - 1
    }
}

proof fn lemma_member_owner(fields: Seq<(String, Json)>, p: Seq<char>, k: int, m: int) -> (i: int)
    requires
        p.len() > 0,
        0 <= k <= fields.len(),
        0 <= m < member_bindings(fields, p, k).len(),
    ensures
        0 <= i < k,
        extends_at(member_bindings(fields, p, k)[m].0, member_path(p, fields[i].0@)),
    decreases fields, k,
{
    let left = member_bindings(fields, p, k - 1);
    let c = member_path(p, fields[k - 1].0@);
    if m < left.len() {
        lemma_member_owner(fields, p, k - 1, m)
    } else {
        lemma_child_paths_extend(p, 0, fields[k - 1].0@);
        lemma_flatten_key_extends(fields[k - 1].1, c, m - left.len());
        k - 1
    }
}

/// The paths of a list of bindings are pairwise distinct.
pub open spec fn paths_distinct(b: Seq<(Seq<char>, Seq<char>)>) -> bool {
    forall|x: int, y: int| 0 <= x < y < b.len() ==> (#[trigger] b[x]).0 != (#[trigger] b[y]).0
}

proof fn lemma_element_paths_distinct(items: Seq<Json>, p: Seq<char>, k: int)
    requires
        p.len() > 0,
        0 <= k <= items.len(),
        forall|i: int| 0 <= i < items.len() ==> plain_keys(#[trigger] items[i]),
    ensures
        paths_distinct(element_bindings(items, p, k)),
    decreases items, k,
{
    if k > 0 {
        let left = element_bindings(items, p, k - 1);
        let c = element_path(p, (k - 1) as nat);
        let right = flatten(items[k - 1], c);
        let all = element_bindings(items, p, k);
        lemma_element_paths_distinct(items, p, k - 1);
        lemma_child_paths_extend(p, (k - 1) as nat, Seq::empty());
        lemma_bound_paths_distinct(items[k - 1], c);
        assert forall|x: int, y: int| 0 <= x < y < all.len() implies (#[trigger] all[x]).0 != (
        #[trigger] all[y]).0 by {
            if y < left.len() {
                assert(all[x] == left[x] && all[y] == left[y]);
            } else if x >= left.len() {
                assert(all[x] == right[x - left.len()] && all[y] == right[y - left.len()]);
            } else {
                let i = lemma_element_owner(items, p, k - 1, x);
                lemma_flatten_key_extends(items[k - 1], c, y - left.len());
                assert(all[x] == left[x] && all[y] == right[y - left.len()]);
                lemma_elements_diverge(p, i as nat, (k - 1) as nat, all[x].0, all[y].0);
            }
        }
    }
}

proof fn lemma_member_paths_distinct(fields: Seq<(String, Json)>, p: Seq<char>, k: int)
    requires
        p.len() > 0,
        0 <= k <= fields.len(),
        forall|i: int|
            0 <= i < fields.len() ==> plain_key(#[trigger] fields[i].0@) && plain_keys(fields[i].1),
        forall|i: int, t: int| 0 <= i < t < fields.len() ==> (#[trigger] fields[i]).0@ != (
        #[trigger] fields[t]).0@,
    ensures
        paths_distinct(member_bindings(fields, p, k)),
    decreases fields, k,
{
    if k > 0 {
        let left = member_bindings(fields, p, k - 1);
        let c = member_path(p, fields[k - 1].0@);
        let right = flatten(fields[k - 1].1, c);
        let all = member_bindings(fields, p, k);
        assert(plain_key(fields[k - 1].0@) && plain_keys(fields[k - 1].1));
        lemma_member_paths_distinct(fields, p, k - 1);
        lemma_child_paths_extend(p, 0, fields[k - 1].0@);
        lemma_bound_paths_distinct(fields[k - 1].1, c);
        assert forall|x: int, y: int| 0 <= x < y < all.len() implies (#[trigger] all[x]).0 != (
        #[trigger] all[y]).0 by {
            if y < left.len() {
                assert(all[x] == left[x] && all[y] == left[y]);
            } else if x >= left.len() {
                assert(all[x] == right[x - left.len()] && all[y] == right[y - left.len()]);
            } else {
                let i = lemma_member_owner(fields, p, k - 1, x);
                lemma_flatten_key_extends(fields[k - 1].1, c, y - left.len());
                assert(all[x] == left[x] && all[y] == right[y - left.len()]);
                assert(fields[i].0@ != fields[k - 1].0@);
                assert(plain_key(fields[i].0@));
                lemma_members_diverge(p, fields[i].0@, fields[k - 1].0@, all[x].0, all[y].0);
            }
        }
    }
}

/// For a value whose objects have plain, distinct keys, the bindings that
/// [`process_value`] appends under a non-empty prefix have pairwise distinct
/// paths: no scalar shadows another.
pub proof fn lemma_bound_paths_distinct(j: Json, prefix: Seq<char>)
    requires
        prefix.len() > 0,
        plain_keys(j),
    ensures
        paths_distinct(flatten(j, prefix)),
    decreases j, 1int,
{
    match j {
        Json::Array(items) => {
            lemma_element_paths_distinct(items@, prefix, items@.len() as int);
        },
        Json::Object(fields) => {
            lemma_member_paths_distinct(fields@, prefix, fields@.len() as int);
        },
        _ => {},
    }
}

/// The number of scalars in a JSON value.
pub open spec fn leaf_count(j: Json) -> nat
    decreases j, 0int,
{
    match j {
        Json::Array(items) => element_leaf_count(items@, items@.len() as int),
        Json::Object(fields) => member_leaf_count(fields@, fields@.len() as int),
        _ => 1,
    }
}

/// The number of scalars in the first `k` elements of an array.
pub open spec fn element_leaf_count(items: Seq<Json>, k: int) -> nat
    decreases items, k,
{
    if k <= 0 || k > items.len() {
        0
    } else {
        element_leaf_count(items, k - 1) + leaf_count(items[k - 1])
    }
}

/// The number of scalars in the first `k` members of an object.
pub open spec fn member_leaf_count(fields: Seq<(String, Json)>, k: int) -> nat
    decreases fields, k,
{
    if k <= 0 || k > fields.len() {
        0
    } else {
        member_leaf_count(fields, k - 1) + leaf_count(fields[k - 1].1)
    }
}

proof fn lemma_element_count(items: Seq<Json>, p: Seq<char>, k: int)
    requires
        0 <= k <= items.len(),
    ensures
        element_bindings(items, p, k).len() == element_leaf_count(items, k),
    decreases items, k,
{
    if k > 0 {
        lemma_element_count(items, p, k - 1);
        lemma_binding_count(items[k - 1], element_path(p, (k - 1) as nat));
    }
}

proof fn lemma_member_count(fields: Seq<(String, Json)>, p: Seq<char>, k: int)
    requires
        0 <= k <= fields.len(),
    ensures
        member_bindings(fields, p, k).len() == member_leaf_count(fields, k),
    decreases fields, k,
{
    if k > 0 {
        lemma_member_count(fields, p, k - 1);
        lemma_binding_count(fields[k - 1].1, member_path(p, fields[k - 1].0@));
    }
}

/// [`process_value`] appends exactly one binding per scalar of the value.
pub proof fn lemma_binding_count(j: Json, prefix: Seq<char>)
    ensures
        flatten(j, prefix).len() == leaf_count(j),
    decreases j, 1int,
{
    match j {
        Json::Array(items) => lemma_element_count(items@, prefix, items@.len() as int),
        Json::Object(fields) => lemma_member_count(fields@, prefix, fields@.len() as int),
        _ => {},
    }
}

/// For a value whose objects have plain, distinct keys, flattened at a
/// non-empty prefix, each scalar is bound at its path to its text, and no
/// other binding has that path: its binding is the one that counts.
pub proof fn lemma_leaf_binding_unique(j: Json, prefix: Seq<char>, steps: Seq<Step>)
    requires
        prefix.len() > 0,
        plain_keys(j),
        leaf_at(j, steps) is Some,
    ensures
        exists|m: int|
            0 <= m < flatten(j, prefix).len() && #[trigger] flatten(j, prefix)[m] == (
                leaf_path(j, prefix, steps),
                leaf_at(j, steps)->0,
            ) && forall|o: int|
                0 <= o < flatten(j, prefix).len() && o != m ==> (#[trigger] flatten(j, prefix)[o]).0
                    != leaf_path(j, prefix, steps),
{
    let b = flatten(j, prefix);
    lemma_every_leaf_bound(j, prefix, steps);
    lemma_bound_paths_distinct(j, prefix);
    let m = choose|m: int| 0 <= m < b.len() && b[m] == (leaf_path(j, prefix, steps), leaf_at(j, steps)->0);
    assert forall|o: int| 0 <= o < b.len() && o != m implies (#[trigger] b[o]).0 != leaf_path(j, prefix, steps) by {
        if o < m {
            assert(b[o].0 != b[m].0);
        } else {
            assert(b[m].0 != b[o].0);
        }
    }
}

} // verus!
