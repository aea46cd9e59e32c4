//! Webhook definitions and the routing table that maps request paths to
//! them, with the merge that builds the table from configuration fragments.

use crate::headers::opt_view;
use vstd::prelude::*;

verus! {

/// One operator-defined webhook.
pub struct WebhookConfig {
    /// The request path that routes to this webhook; `None` leaves it
    /// unrouted.
    pub path: Option<String>,
    /// The HMAC secret, itself a template over `event.type`.
    pub secret: Option<String>,
    /// Allowed event types; empty, or holding `*`, allows every event.
    /// Order and repetition carry no meaning.
    pub events: Vec<String>,
    /// Interpreter and its leading arguments; `sh -c` when absent.
    pub shell: Option<Vec<String>>,
    /// An inline shell command template.
    pub command: Option<String>,
    /// The path of a script template.
    pub script: Option<String>,
}

/// The configuration: listening port, log level, and the routing table.
pub struct Config {
    pub port: u16,
    pub verbose: String,
    pub webhooks: Vec<WebhookConfig>,
}

/// A webhook definition as values.
pub struct WebhookView {
    pub path: Option<Seq<char>>,
    pub secret: Option<Seq<char>>,
    pub events: Set<Seq<char>>,
    pub shell: Option<Seq<Seq<char>>>,
    pub command: Option<Seq<char>>,
    pub script: Option<Seq<char>>,
}

/// The texts of a list of strings.
pub open spec fn texts(v: Seq<String>) -> Seq<Seq<char>> {
    v.map_values(|s: String| s@)
}

/// The set of texts held by a list of strings.
pub open spec fn text_set(v: Seq<String>) -> Set<Seq<char>> {
    Set::new(|e: Seq<char>| exists|i: int| 0 <= i < v.len() && #[trigger] v[i]@ == e)
}

impl View for WebhookConfig {
    type V = WebhookView;

    open spec fn view(&self) -> WebhookView {
        WebhookView {
            path: opt_view(self.path),
            secret: opt_view(self.secret),
            events: text_set(self.events@),
            shell: match self.shell {
                Some(v) => Some(texts(v@)),
                None => None,
            },
            command: opt_view(self.command),
            script: opt_view(self.script),
        }
    }
}

/// The definitions of a list of webhooks.
pub open spec fn views(ws: Seq<WebhookConfig>) -> Seq<WebhookView> {
    ws.map_values(|w: WebhookConfig| w@)
}

/// `i` is the first position of `ws` whose path is `p`.
pub open spec fn first_with_path(ws: Seq<WebhookView>, p: Option<Seq<char>>, i: int) -> bool {
    &&& 0 <= i < ws.len()
    &&& ws[i].path == p
    &&& forall|j: int| 0 <= j < i ==> (#[trigger] ws[j]).path != p
}

/// An incoming definition that meets an existing one with its path: the
/// events are united, every other field is the incoming one's.
pub open spec fn absorb(existing: WebhookView, incoming: WebhookView) -> WebhookView {
    WebhookView {
        path: incoming.path,
        secret: incoming.secret,
        events: existing.events + incoming.events,
        shell: incoming.shell,
        command: incoming.command,
        script: incoming.script,
    }
}

/// Adds one definition to a table: a definition already there with its
/// path leaves its place, is absorbed, and goes to the end; a new path is
/// appended.
pub open spec fn merge_one(ws: Seq<WebhookView>, w: WebhookView) -> Seq<WebhookView> {
    if exists|i: int| first_with_path(ws, w.path, i) {
        let i = choose|i: int| first_with_path(ws, w.path, i);
        ws.remove(i).push(absorb(ws[i], w))
    } else {
        ws.push(w)
    }
}

/// Adds every incoming definition, in order.
pub open spec fn merge_all(ws: Seq<WebhookView>, incoming: Seq<WebhookView>) -> Seq<WebhookView>
    decreases incoming.len(),
{
    if incoming.len() == 0 {
        ws
    } else {
        merge_all(merge_one(ws, incoming[0]), incoming.drop_first())
    }
}

/// No two definitions of the table share a path.
pub open spec fn paths_unique(ws: Seq<WebhookView>) -> bool {
    forall|i: int, j: int| 0 <= i < j < ws.len() ==> (#[trigger] ws[i]).path != (#[trigger] ws[j]).path
}

/// The definition routed at `p`, if any.
pub open spec fn route(ws: Seq<WebhookView>, p: Seq<char>) -> Option<WebhookView> {
    if exists|i: int| first_with_path(ws, Some(p), i) {
        Some(ws[choose|i: int| first_with_path(ws, Some(p), i)])
    } else {
        None
    }
}

proof fn lemma_first_unique(ws: Seq<WebhookView>, p: Option<Seq<char>>, i: int, k: int)
    requires
        first_with_path(ws, p, i),
        first_with_path(ws, p, k),
    ensures
        i == k,
{
    if i < k {
        assert(ws[i].path != p);
    } else if k < i {
        assert(ws[k].path != p);
    }
}

fn same_path(a: &Option<String>, b: &Option<String>) -> (r: bool)
    ensures
        r == (opt_view(*a) == opt_view(*b)),
{
    match (a, b) {
        (Some(x), Some(y)) => *x == *y,
        (None, None) => true,
        _ => false,
    }
}

pub(crate) fn holds_text(v: &Vec<String>, s: &String) -> (r: bool)
    ensures
        r == text_set(v@).contains(s@),
{
    let mut i: usize = 0;
    while i < v.len()
        invariant
            i <= v@.len(),
            forall|j: int| 0 <= j < i ==> (#[trigger] v@[j])@ != s@,
        decreases v@.len() - i,
    {
        if v[i] == *s {
            assert(v@[i as int]@ == s@);
            return true;
        }
        i = i + 1;
    }
    false
}

/// Adds to `into` each string of `from` that it does not yet hold.
fn absorb_events(into: &mut Vec<String>, from: &Vec<String>)
    ensures
        text_set(final(into)@) == text_set(old(into)@) + text_set(from@),
{
    let mut i: usize = 0;
    while i < from.len()
        invariant
            i <= from@.len(),
            text_set(into@) == text_set(old(into)@) + text_set(from@.subrange(0, i as int)),
        decreases from@.len() - i,
    {
        let e = &from[i];
        let ghost before = into@;
        if !holds_text(into, e) {
            into.push(e.clone());
        }
        proof {
            let now = from@.subrange(0, i as int + 1);
            let was = from@.subrange(0, i as int);
            assert forall|t: Seq<char>| text_set(into@).contains(t) <==> (text_set(old(into)@)
                + text_set(now)).contains(t) by {
                if text_set(into@).contains(t) {
                    let k = choose|k: int| 0 <= k < into@.len() && #[trigger] into@[k]@ == t;
                    if k < before.len() {
                        assert(before[k]@ == t);
                        assert(text_set(before).contains(t));
                        if !text_set(old(into)@).contains(t) {
                            let m = choose|m: int| 0 <= m < was.len() && #[trigger] was[m]@ == t;
                            assert(now[m]@ == t);
                        }
                    } else {
                        assert(now[i as int]@ == t);
                    }
                }
                if (text_set(old(into)@) + text_set(now)).contains(t) {
                    if text_set(old(into)@).contains(t) || text_set(was).contains(t) {
                        assert(text_set(before).contains(t));
                        let k = choose|k: int| 0 <= k < before.len() && #[trigger] before[k]@ == t;
                        assert(into@[k]@ == t);
                    } else {
                        let m = choose|m: int| 0 <= m < now.len() && #[trigger] now[m]@ == t;
                        if m < i {
                            assert(was[m]@ == t);
                        }
                        assert(t == e@);
                        if text_set(before).contains(t) {
                            let k = choose|k: int| 0 <= k < before.len() && #[trigger] before[k]@ == t;
                            assert(into@[k]@ == t);
                        } else {
                            assert(into@[before.len() as int]@ == t);
                        }
                    }
                }
            }
            assert(text_set(into@) =~= text_set(old(into)@) + text_set(now));
        }
        i = i + 1;
    }
    assert(from@.subrange(0, from@.len() as int) =~= from@);
}

proof fn lemma_absorb_itself(w: WebhookView)
    ensures
        absorb(w, w) == w,
{
    assert(w.events + w.events =~= w.events);
}

proof fn lemma_merge_rotation(s: Seq<WebhookView>, k: int)
    requires
        0 <= k <= s.len(),
    ensures
        merge_all(s.subrange(k, s.len() as int) + s.subrange(0, k), s.subrange(k, s.len() as int))
            == s,
    decreases s.len() - k,
{
    let n = s.len() as int;
    let cur = s.subrange(k, n) + s.subrange(0, k);
    let incoming = s.subrange(k, n);
    if k == n {
        assert(cur =~= s);
    } else {
        assert(first_with_path(cur, incoming[0].path, 0));
        let c = choose|c: int| first_with_path(cur, incoming[0].path, c);
        lemma_first_unique(cur, incoming[0].path, 0, c);
        lemma_absorb_itself(s[k]);
        assert(merge_one(cur, incoming[0]) =~= s.subrange(k + 1, n) + s.subrange(0, k + 1));
        assert(incoming.drop_first() =~= s.subrange(k + 1, n));
        lemma_merge_rotation(s, k + 1);
    }
}

/// Merging a table with itself changes nothing: each definition unites
/// its events with themselves, and the table keeps its length and order.
pub proof fn lemma_merge_idempotent(a: Seq<WebhookView>)
    ensures
        merge_all(a, a) == a,
{
    lemma_merge_rotation(a, 0);
    assert(a.subrange(0, a.len() as int) + a.subrange(0, 0) =~= a);
    assert(a.subrange(0, a.len() as int) =~= a);
}

/// The paths of two tables never meet.
pub open spec fn paths_disjoint(a: Seq<WebhookView>, b: Seq<WebhookView>) -> bool {
    forall|i: int, j: int| 0 <= i < a.len() && 0 <= j < b.len() ==> (#[trigger] a[i]).path != (
    #[trigger] b[j]).path
}

proof fn lemma_merge_disjoint_from(a: Seq<WebhookView>, b: Seq<WebhookView>, k: int)
    requires
        0 <= k <= b.len(),
        paths_unique(b),
        paths_disjoint(a, b),
    ensures
        merge_all(a + b.subrange(0, k), b.subrange(k, b.len() as int)) == a + b,
    decreases b.len() - k,
{
    let n = b.len() as int;
    let cur = a + b.subrange(0, k);
    let incoming = b.subrange(k, n);
    if k == n {
        assert(cur =~= a + b);
    } else {
        assert(incoming[0] == b[k]);
        assert forall|i: int| 0 <= i < cur.len() implies (#[trigger] cur[i]).path != b[k].path by {
            if i < a.len() {
                assert(cur[i] == a[i]);
            } else {
                assert(cur[i] == b[i - a.len()]);
            }
        }
        assert(!exists|i: int| first_with_path(cur, incoming[0].path, i));
        assert(merge_one(cur, incoming[0]) =~= a + b.subrange(0, k + 1));
        assert(incoming.drop_first() =~= b.subrange(k + 1, n));
        lemma_merge_disjoint_from(a, b, k + 1);
    }
}

/// Merging a table whose paths are its own onto another appends it.
pub proof fn lemma_merge_disjoint(a: Seq<WebhookView>, b: Seq<WebhookView>)
    requires
        paths_unique(b),
        paths_disjoint(a, b),
    ensures
        merge_all(a, b) == a + b,
{
    lemma_merge_disjoint_from(a, b, 0);
    assert(a + b.subrange(0, 0) =~= a);
    assert(b.subrange(0, b.len() as int) =~= b);
}

/// On tables with unique and disjoint paths merging is commutative: both
/// orders hold the same definitions, each as often.
pub proof fn lemma_merge_commutative(a: Seq<WebhookView>, b: Seq<WebhookView>)
    requires
        paths_unique(a),
        paths_unique(b),
        paths_disjoint(a, b),
    ensures
        merge_all(a, b).to_multiset() == merge_all(b, a).to_multiset(),
{
    lemma_merge_disjoint(a, b);
    assert(paths_disjoint(b, a)) by {
        assert forall|i: int, j: int| 0 <= i < b.len() && 0 <= j < a.len() implies (
        #[trigger] b[i]).path != (#[trigger] a[j]).path by {
            assert(a[j].path != b[i].path);
        }
    }
    lemma_merge_disjoint(b, a);
    vstd::seq_lib::lemma_seq_union_to_multiset_commutative(a, b);
}

proof fn lemma_merge_one_keeps_unique(ws: Seq<WebhookView>, w: WebhookView)
    requires
        paths_unique(ws),
    ensures
        paths_unique(merge_one(ws, w)),
{
    if exists|i: int| first_with_path(ws, w.path, i) {
        let i = choose|i: int| first_with_path(ws, w.path, i);
        let r = ws.remove(i);
        let m = r.push(absorb(ws[i], w));
        assert forall|x: int, y: int| 0 <= x < y < m.len() implies (#[trigger] m[x]).path != (
        #[trigger] m[y]).path by {
            let ox = if x < i { x } else { x + 1 };
            assert(m[x] == ws[ox]);
            if y == m.len() - 1 {
                assert(m[y].path == ws[i].path);
            } else {
                let oy = if y < i { y } else { y + 1 };
                assert(m[y] == ws[oy]);
            }
        }
    } else {
        let m = ws.push(w);
        assert forall|x: int, y: int| 0 <= x < y < m.len() implies (#[trigger] m[x]).path != (
        #[trigger] m[y]).path by {
            assert(m[x] == ws[x]);
            if y == m.len() - 1 {
                assert(!first_with_path(ws, w.path, x));
                if ws[x].path == w.path {
                    let f = choose|f: int| 0 <= f < x && (#[trigger] ws[f]).path == w.path;
                    assert(!first_with_path(ws, w.path, f));
                    let g = choose|g: int| 0 <= g < f && (#[trigger] ws[g]).path == w.path;
                    assert(false);
                }
            } else {
                assert(m[y] == ws[y]);
            }
        }
    }
}

/// Merging keeps every path of the table unique, whatever comes in.
pub proof fn lemma_merge_keeps_unique(ws: Seq<WebhookView>, incoming: Seq<WebhookView>)
    requires
        paths_unique(ws),
    ensures
        paths_unique(merge_all(ws, incoming)),
    decreases incoming.len(),
{
    if incoming.len() > 0 {
        lemma_merge_one_keeps_unique(ws, incoming[0]);
        lemma_merge_keeps_unique(merge_one(ws, incoming[0]), incoming.drop_first());
    }
}

/// The first position of `ws` whose path is `p`.
fn position_of(ws: &Vec<WebhookConfig>, p: &Option<String>) -> (r: Option<usize>)
    ensures
        match r {
            Some(i) => first_with_path(views(ws@), opt_view(*p), i as int),
            None => forall|j: int| 0 <= j < ws@.len() ==> (#[trigger] ws@[j])@.path != opt_view(*p),
        },
{
    let mut i: usize = 0;
    while i < ws.len()
        invariant
            i <= ws@.len(),
            forall|j: int| 0 <= j < i ==> (#[trigger] ws@[j])@.path != opt_view(*p),
        decreases ws@.len() - i,
    {
        if same_path(&ws[i].path, p) {
            assert forall|j: int| 0 <= j < i implies (#[trigger] views(ws@)[j]).path != opt_view(*p) by {
                assert(views(ws@)[j] == ws@[j]@);
            }
            return Some(i);
        }
        i = i + 1;
    }
    None
}

impl Config {
    /// Folds the definitions of `other` into this table. A definition whose
    /// path is already routed unites its events with the existing entry's,
    /// takes the rest from the incoming definition, and moves to the end;
    /// any other definition is appended. Port and log level stay.
    pub fn merge(&mut self, other: Config)
        ensures
            views(final(self).webhooks@) == merge_all(views(old(self).webhooks@), views(other.webhooks@)),
            final(self).port == old(self).port,
            final(self).verbose == old(self).verbose,
            paths_unique(views(old(self).webhooks@)) ==> paths_unique(views(final(self).webhooks@)),
    {
        proof {
            if paths_unique(views(old(self).webhooks@)) {
                lemma_merge_keeps_unique(views(old(self).webhooks@), views(other.webhooks@));
            }
        }
        let mut rest = other.webhooks;
        while rest.len() > 0
            invariant
                merge_all(views(old(self).webhooks@), views(other.webhooks@)) == merge_all(
                    views(self.webhooks@),
                    views(rest@),
                ),
                self.port == old(self).port,
                self.verbose == old(self).verbose,
            decreases rest@.len(),
        {
            let ghost rest_before = views(rest@);
            let ghost table = views(self.webhooks@);
            let incoming = rest.remove(0);
            assert(views(rest@) =~= rest_before.drop_first());
            assert(rest_before[0] == incoming@);
            match position_of(&self.webhooks, &incoming.path) {
                Some(i) => {
                let existing = self.webhooks.remove(i);
                let mut events = existing.events;
                absorb_events(&mut events, &incoming.events);
                let merged = WebhookConfig {
                    path: incoming.path,
                    secret: incoming.secret,
                    events,
                    shell: incoming.shell,
                    command: incoming.command,
                    script: incoming.script,
                };
                assert(merged@ == absorb(table[i as int], incoming@));
                self.webhooks.push(merged);
                proof {
                    let c = choose|c: int| first_with_path(table, incoming@.path, c);
                    lemma_first_unique(table, incoming@.path, i as int, c);
                    assert(views(self.webhooks@) =~= merge_one(table, incoming@));
                }
            },
            None => {
                self.webhooks.push(incoming);
                assert(views(self.webhooks@) =~= merge_one(table, incoming@));
            },
            }
        }
        assert(views(rest@) =~= Seq::<WebhookView>::empty());
    }

    /// The definition routed at `path`.
    pub fn find(&self, path: &str) -> (r: Option<&WebhookConfig>)
        ensures
            match r {
                Some(w) => route(views(self.webhooks@), path@) == Some(w@),
                None => route(views(self.webhooks@), path@) is None,
            },
    {
        let key = Some(path.to_string());
        match position_of(&self.webhooks, &key) {
            Some(i) => {
                proof {
                    let ws = views(self.webhooks@);
                    let c = choose|c: int| first_with_path(ws, Some(path@), c);
                    lemma_first_unique(ws, Some(path@), i as int, c);
                }
                Some(&self.webhooks[i])
            },
            None => {
                assert forall|j: int| 0 <= j < self.webhooks@.len() implies !first_with_path(
                    views(self.webhooks@),
                    Some(path@),
                    j,
                ) by {
                    assert(views(self.webhooks@)[j] == self.webhooks@[j]@);
                }
                None
            },
        }
    }

    /// Rebuilds the routing table from fragments, merged left to right onto
    /// an empty table. Port and log level stay.
    pub fn reload(&mut self, fragments: Vec<Config>)
        ensures
            views(final(self).webhooks@) == merge_fragments(
                Seq::empty(),
                fragments@.map_values(|c: Config| views(c.webhooks@)),
            ),
            final(self).port == old(self).port,
            final(self).verbose == old(self).verbose,
            paths_unique(views(final(self).webhooks@)),
    {
        self.webhooks = Vec::new();
        let ghost all = fragments@.map_values(|c: Config| views(c.webhooks@));
        assert(views(self.webhooks@) =~= Seq::<WebhookView>::empty());
        let mut rest = fragments;
        while rest.len() > 0
            invariant
                merge_fragments(Seq::empty(), all) == merge_fragments(
                    views(self.webhooks@),
                    rest@.map_values(|c: Config| views(c.webhooks@)),
                ),
                paths_unique(views(self.webhooks@)),
                self.port == old(self).port,
                self.verbose == old(self).verbose,
            decreases rest@.len(),
        {
            let ghost before = rest@.map_values(|c: Config| views(c.webhooks@));
            let fragment = rest.remove(0);
            assert(rest@.map_values(|c: Config| views(c.webhooks@)) =~= before.drop_first());
            self.merge(fragment);
        }
        assert(rest@.map_values(|c: Config| views(c.webhooks@)) =~= Seq::<Seq<WebhookView>>::empty());
    }

    /// A configuration with the default port and log level whose table is
    /// built from fragments, merged left to right.
    pub fn from_fragments(fragments: Vec<Config>) -> (r: Config)
        ensures
            r.port == 8080,
            r.verbose@ == "info"@,
            views(r.webhooks@) == merge_fragments(
                Seq::empty(),
                fragments@.map_values(|c: Config| views(c.webhooks@)),
            ),
            paths_unique(views(r.webhooks@)),
    {
        let mut config = Config::default();
        config.reload(fragments);
        config
    }

    /// Two lines for each webhook: its path (`(none)` when unrouted) and
    /// its events joined by `, `.
    pub fn path_lines(&self) -> (r: Vec<String>)
        ensures
            texts(r@) == descriptions(self.webhooks@),
    {
        let mut lines: Vec<String> = Vec::new();
        let mut i: usize = 0;
        while i < self.webhooks.len()
            invariant
                i <= self.webhooks@.len(),
                texts(lines@) == descriptions(self.webhooks@.subrange(0, i as int)),
            decreases self.webhooks@.len() - i,
        {
            let w = &self.webhooks[i];
            let mut path_line = "Webhook path: ".to_string();
            match &w.path {
                Some(p) => path_line.append(p.as_str()),
                None => path_line.append("(none)"),
            }
            let mut events_line = "\tEvents: ".to_string();
            let joined_events = join_texts(&w.events, ", ");
            events_line.append(joined_events.as_str());
            let ghost before = texts(lines@);
            lines.push(path_line);
            lines.push(events_line);
            proof {
                let upto = self.webhooks@.subrange(0, i + 1);
                assert(upto.drop_last() =~= self.webhooks@.subrange(0, i as int));
                assert(upto.last() == *w);
                assert(texts(lines@) =~= before + description(*w));
            }
            i = i + 1;
        }
        assert(self.webhooks@.subrange(0, self.webhooks@.len() as int) =~= self.webhooks@);
        lines
    }

    /// The first configuration that parsed, or the default one when none
    /// did.
    pub fn first_parsed(attempts: Vec<Option<Config>>) -> (r: Config)
        ensures
            match first_some(attempts@) {
                Some(c) => r == c,
                None => r.port == 8080 && r.verbose@ == "info"@ && r.webhooks@.len() == 0,
            },
    {
        let mut rest = attempts;
        while rest.len() > 0
            invariant
                first_some(attempts@) == first_some(rest@),
            decreases rest@.len(),
        {
            let ghost before = rest@;
            let attempt = rest.remove(0);
            assert(rest@ =~= before.drop_first());
            if let Some(c) = attempt {
                return c;
            }
        }
        Config::default()
    }
}

impl Default for Config {
    /// Port 8080, log level `info`, and no webhooks.
    fn default() -> (r: Config)
        ensures
            r.port == 8080,
            r.verbose@ == "info"@,
            r.webhooks@.len() == 0,
    {
        Config { port: 8080, verbose: "info".to_string(), webhooks: Vec::new() }
    }
}

/// Texts joined with a separator between neighbours.
pub open spec fn joined(items: Seq<Seq<char>>, sep: Seq<char>) -> Seq<char>
    decreases items.len(),
{
    if items.len() == 0 {
        Seq::empty()
    } else if items.len() == 1 {
        items[0]
    } else {
        joined(items.drop_last(), sep) + sep + items.last()
    }
}

/// The two lines that describe a webhook: its path, and its events in the
/// order they are held.
pub open spec fn description(w: WebhookConfig) -> Seq<Seq<char>> {
    seq![
        "Webhook path: "@ + match w.path {
            Some(p) => p@,
            None => "(none)"@,
        },
        "\tEvents: "@ + joined(texts(w.events@), ", "@),
    ]
}

/// The description lines of every webhook of a table, in order.
pub open spec fn descriptions(ws: Seq<WebhookConfig>) -> Seq<Seq<char>>
    decreases ws.len(),
{
    if ws.len() == 0 {
        Seq::empty()
    } else {
        descriptions(ws.drop_last()) + description(ws.last())
    }
}

fn join_texts(items: &Vec<String>, sep: &str) -> (r: String)
    ensures
        r@ == joined(texts(items@), sep@),
{
    let mut out = String::new();
    let mut i: usize = 0;
    while i < items.len()
        invariant
            i <= items@.len(),
            out@ == joined(texts(items@).subrange(0, i as int), sep@),
        decreases items@.len() - i,
    {
        let ghost done = texts(items@).subrange(0, i as int);
        let ghost next = texts(items@).subrange(0, i + 1);
        assert(next.drop_last() =~= done);
        if i > 0 {
            out.append(sep);
        }
        out.append(items[i].as_str());
        proof {
            if i == 0 {
                assert(out@ =~= next[0]);
            } else {
                assert(out@ =~= joined(done, sep@) + sep@ + next.last());
            }
        }
        i = i + 1;
    }
    assert(texts(items@).subrange(0, items@.len() as int) =~= texts(items@));
    out
}

/// The first value that is there.
pub open spec fn first_some<T>(s: Seq<Option<T>>) -> Option<T>
    decreases s.len(),
{
    if s.len() == 0 {
        None
    } else if s[0] is Some {
        s[0]
    } else {
        first_some(s.drop_first())
    }
}

/// Merges each fragment's definitions in turn.
pub open spec fn merge_fragments(ws: Seq<WebhookView>, fragments: Seq<Seq<WebhookView>>) -> Seq<
    WebhookView,
>
    decreases fragments.len(),
{
    if fragments.len() == 0 {
        ws
    } else {
        merge_fragments(merge_all(ws, fragments[0]), fragments.drop_first())
    }
}

} // verus!
