//! Request headers as plain values, with ASCII case-insensitive lookup.

use vstd::prelude::*;
use vstd::string::*;

verus! {

/// One request header. `value` is `None` when the raw value is not
/// printable ASCII text and so cannot be read as a string.
pub struct Header {
    pub name: String,
    pub value: Option<String>,
}

/// The headers of one request, in the order they were received.
pub struct Headers {
    pub entries: Vec<Header>,
}

pub open spec fn opt_view(v: Option<String>) -> Option<Seq<char>> {
    match v {
        Some(s) => Some(s@),
        None => None,
    }
}

impl View for Header {
    type V = (Seq<char>, Option<Seq<char>>);

    open spec fn view(&self) -> (Seq<char>, Option<Seq<char>>) {
        (self.name@, opt_view(self.value))
    }
}

impl View for Headers {
    type V = Seq<(Seq<char>, Option<Seq<char>>)>;

    open spec fn view(&self) -> Seq<(Seq<char>, Option<Seq<char>>)> {
        self.entries@.map_values(|h: Header| h@)
    }
}

/// Two characters are equal up to ASCII case.
pub open spec fn same_letter(a: char, b: char) -> bool {
    ||| a == b
    ||| (65 <= a as u32 <= 90 && b as u32 == a as u32 + 32)
    ||| (65 <= b as u32 <= 90 && a as u32 == b as u32 + 32)
}

/// Header names compare without regard to ASCII case.
pub open spec fn names_match(a: Seq<char>, b: Seq<char>) -> bool {
    &&& a.len() == b.len()
    &&& forall|i: int| 0 <= i < a.len() ==> same_letter(#[trigger] a[i], b[i])
}

/// The value slot of the first header called `name`, if any header is.
pub open spec fn first_match(hs: Seq<(Seq<char>, Option<Seq<char>>)>, name: Seq<char>) -> Option<
    Option<Seq<char>>,
>
    decreases hs.len(),
{
    if hs.len() == 0 {
        None
    } else if names_match(hs[0].0, name) {
        Some(hs[0].1)
    } else {
        first_match(hs.drop_first(), name)
    }
}

/// Some header is called `name`, whatever its value.
pub open spec fn present(hs: Seq<(Seq<char>, Option<Seq<char>>)>, name: Seq<char>) -> bool {
    first_match(hs, name) is Some
}

/// The text of the first header called `name`, when it is readable.
pub open spec fn text_of(hs: Seq<(Seq<char>, Option<Seq<char>>)>, name: Seq<char>) -> Option<
    Seq<char>,
> {
    match first_match(hs, name) {
        Some(Some(v)) => Some(v),
        _ => None,
    }
}

fn letters_match(a: char, b: char) -> (r: bool)
    ensures
        r == same_letter(a, b),
{
    let x = a as u32;
    let y = b as u32;
    x == y || (65 <= x && x <= 90 && y == x + 32) || (65 <= y && y <= 90 && x == y + 32)
}

/// Compares two header names without regard to ASCII case.
pub fn header_names_match(a: &str, b: &str) -> (r: bool)
    ensures
        r == names_match(a@, b@),
{
    let n = a.unicode_len();
    if n != b.unicode_len() {
        return false;
    }
    let mut i: usize = 0;
    while i < n
        invariant
            n == a@.len(),
            n == b@.len(),
            i <= n,
            forall|j: int| 0 <= j < i ==> same_letter(#[trigger] a@[j], b@[j]),
        decreases n - i,
    {
        if !letters_match(a.get_char(i), b.get_char(i)) {
            return false;
        }
        i = i + 1;
    }
    true
}

proof fn lemma_first_match_skip(hs: Seq<(Seq<char>, Option<Seq<char>>)>, name: Seq<char>, i: int)
    requires
        0 <= i < hs.len(),
        !names_match(hs[i].0, name),
    ensures
        first_match(hs.subrange(i, hs.len() as int), name) == first_match(
            hs.subrange(i + 1, hs.len() as int),
            name,
        ),
{
    assert(hs.subrange(i, hs.len() as int).drop_first() =~= hs.subrange(i + 1, hs.len() as int));
}

impl Headers {
    /// An empty header list.
    pub fn new() -> (r: Headers)
        ensures
            r@ == Seq::<(Seq<char>, Option<Seq<char>>)>::empty(),
    {
        let r = Headers { entries: Vec::new() };
        assert(r@ =~= Seq::<(Seq<char>, Option<Seq<char>>)>::empty());
        r
    }

    /// Appends a header with a readable text value.
    pub fn insert(&mut self, name: &str, value: &str)
        ensures
            final(self)@ == old(self)@.push((name@, Some(value@))),
    {
        let h = Header { name: name.to_string(), value: Some(value.to_string()) };
        self.entries.push(h);
        assert(final(self)@ =~= old(self)@.push((name@, Some(value@))));
    }

    /// The value slot of the first header called `name`: `None` when no
    /// header has that name.
    pub fn lookup(&self, name: &str) -> (r: Option<&Option<String>>)
        ensures
            match r {
                Some(v) => first_match(self@, name@) == Some(opt_view(*v)),
                None => first_match(self@, name@) is None,
            },
    {
        let n = self.entries.len();
        let mut i: usize = 0;
        assert(self@.subrange(0, n as int) =~= self@);
        while i < n
            invariant
                n == self.entries@.len(),
                n == self@.len(),
                i <= n,
                first_match(self@, name@) == first_match(self@.subrange(i as int, n as int), name@),
            decreases n - i,
        {
            let h = &self.entries[i];
            if header_names_match(h.name.as_str(), name) {
                assert(self@[i as int] == h@);
                assert(self@.subrange(i as int, n as int)[0] == h@);
                return Some(&h.value);
            }
            proof {
                assert(self@[i as int] == h@);
                lemma_first_match_skip(self@, name@, i as int);
            }
            i = i + 1;
        }
        None
    }

    /// Whether some header is called `name`.
    pub fn contains(&self, name: &str) -> (r: bool)
        ensures
            r == present(self@, name@),
    {
        self.lookup(name).is_some()
    }

    /// The readable text of the first header called `name`.
    pub fn text(&self, name: &str) -> (r: Option<&String>)
        ensures
            match r {
                Some(v) => text_of(self@, name@) == Some(v@),
                None => text_of(self@, name@) is None,
            },
    {
        match self.lookup(name) {
            Some(Some(v)) => Some(v),
            _ => None,
        }
    }
}

} // verus!
