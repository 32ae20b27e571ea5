//! The directories of the log files, one for each streaming session: their names, the way to a
//! new one, and which of the old ones have to go.

use crate::logger::TelemetryLogger;
use crate::number;
use crate::number::Number;
use crate::text;
use crate::text::{le_text, push_decimal, same_text, starts_with};
use vstd::prelude::*;
use vstd::relations::*;

verus! {

/// How many session directories are kept.
pub const DEFAULT_MAX_SESSIONS: usize = 10;

/// How many names are tried for a new session directory.
pub const MAX_ATTEMPTS: u32 = 100;

/// The name of a session directory for the `attempt`th try at the time `unix_ns`.
pub open spec fn session_name(unix_ns: nat, attempt: nat) -> Seq<char> {
    if attempt == 0 {
        "session_"@ + text::decimal(unix_ns)
    } else {
        "session_"@ + text::decimal(unix_ns) + "_"@ + text::decimal(attempt)
    }
}

/// How far the making of a session directory has come.
pub enum SessionDirProgress {
    /// The directory of all sessions was to be created, and was or was not. `unix_ns` is the time.
    Base { created: bool, unix_ns: u128 },
    /// The session directory was to be created under the name of a try, and was or was not.
    Tried { created: bool, unix_ns: u128, attempt: u32 },
}

/// The next step to a session directory.
pub enum SessionDirStep {
    /// Create a directory of that name.
    Try { name: String, attempt: u32 },
    /// Prune the old sessions. The directory of that name is the newest one and the result.
    Finish { name: String },
    /// There is no result.
    GiveUp,
}

/// The contents of a [`SessionDirStep`].
pub enum Step {
    Try { name: Seq<char>, attempt: nat },
    Finish { name: Seq<char> },
    GiveUp,
}

impl View for SessionDirStep {
    type V = Step;

    open spec fn view(&self) -> Step {
        match *self {
            SessionDirStep::Try { name, attempt } => Step::Try {
                name: name@,
                attempt: attempt as nat,
            },
            SessionDirStep::Finish { name } => Step::Finish { name: name@ },
            SessionDirStep::GiveUp => Step::GiveUp,
        }
    }
}

/// The try `attempt`, if it is one of those to be made.
pub open spec fn try_step(unix_ns: nat, attempt: nat) -> Step {
    if attempt < MAX_ATTEMPTS {
        Step::Try { name: session_name(unix_ns, attempt), attempt }
    } else {
        Step::GiveUp
    }
}

/// The step that follows.
pub open spec fn next_step(progress: SessionDirProgress) -> Step {
    match progress {
        SessionDirProgress::Base { created, unix_ns } => if created {
            try_step(unix_ns as nat, 0)
        } else {
            Step::GiveUp
        },
        SessionDirProgress::Tried { created, unix_ns, attempt } => if created {
            Step::Finish { name: session_name(unix_ns as nat, attempt as nat) }
        } else {
            try_step(unix_ns as nat, attempt as nat + 1)
        },
    }
}

/// The name of a session directory.
pub fn session_dir_name(unix_ns: u128, attempt: u32) -> (name: String)
    ensures
        name@ == session_name(unix_ns as nat, attempt as nat),
        attempt == 0 ==> name@ == "session_"@ + text::decimal(unix_ns as nat),
        attempt != 0 ==> name@ == "session_"@ + text::decimal(unix_ns as nat) + "_"@
            + text::decimal(attempt as nat),
{
    let mut name = "session_".to_owned();
    push_decimal(&mut name, unix_ns);
    if attempt != 0 {
        name.append("_");
        push_decimal(&mut name, attempt as u128);
    }
    name
}

/// The name of an entry, where it is text, is that of a session directory.
pub open spec fn is_session(entry: Option<String>) -> bool {
    entry matches Some(name) && "session_"@.is_prefix_of(name@)
}

/// The names of the session directories among the entries of a directory.
pub open spec fn session_names(entries: Seq<Option<String>>) -> Seq<Seq<char>>
    decreases entries.len(),
{
    if entries.len() == 0 {
        Seq::empty()
    } else if is_session(entries.last()) {
        session_names(entries.drop_last()).push(entries.last()->0@)
    } else {
        session_names(entries.drop_last())
    }
}

/// The time and the try in the name of a session directory: `session_{time}` is the first try, and
/// `session_{time}_{try}` any other. There are none in a name of another form.
pub open spec fn session_key(name: Seq<char>) -> Option<(nat, nat)> {
    if !"session_"@.is_prefix_of(name) {
        None
    } else {
        let rest = name.skip("session_"@.len() as int);
        match rest.index_of_first('_') {
            None => match number::number(rest) {
                Some(time) => Some((time, 0)),
                None => None,
            },
            Some(place) => match (
                number::number(rest.take(place)),
                number::number(rest.skip(place + 1)),
            ) {
                (Some(time), Some(attempt)) => Some((time, attempt)),
                _ => None,
            },
        }
    }
}

/// The order by age of names that tell it, the oldest first: by time, at the same time by try. The
/// text decides between what is equal in this, and between names that tell no time, which follow.
pub open spec fn age_le(a: Seq<char>, b: Seq<char>) -> bool {
    match (session_key(a), session_key(b)) {
        (Some((s, i)), Some((t, j))) => s < t || (s == t && (i < j || (i == j && text::text_le(
            a,
            b,
        )))),
        (Some(_), None) => true,
        (None, Some(_)) => false,
        (None, None) => text::text_le(a, b),
    }
}

/// [`age_le`] as an order to sort by.
pub open spec fn age_order() -> spec_fn(Seq<char>, Seq<char>) -> bool {
    |a: Seq<char>, b: Seq<char>| age_le(a, b)
}

/// [`age_le`] is a total order.
pub proof fn lemma_age_order_total()
    ensures
        total_ordering(age_order()),
{
    let leq = age_order();
    let by_text = text::text_order();
    text::lemma_text_order_total();
    assert forall|a: Seq<char>| #[trigger] leq(a, a) by {
        assert(by_text(a, a));
    }
    assert forall|a: Seq<char>, b: Seq<char>|
        #[trigger] leq(a, b) && #[trigger] leq(b, a) implies a == b by {
        assert(by_text(a, b) && by_text(b, a));
    }
    assert forall|a: Seq<char>, b: Seq<char>, c: Seq<char>|
        #[trigger] leq(a, b) && #[trigger] leq(b, c) implies leq(a, c) by {
        if by_text(a, b) && by_text(b, c) {
            assert(by_text(a, c));
        }
    }
    assert forall|a: Seq<char>, b: Seq<char>| #[trigger] leq(a, b) || #[trigger] leq(b, a) by {
        assert(by_text(a, b) || by_text(b, a));
    }
}

/// The names other than `newest`.
pub open spec fn other_than(newest: Seq<char>) -> spec_fn(Seq<char>) -> bool {
    |name: Seq<char>| name != newest
}

/// The sessions other than `newest`.
pub open spec fn others(sessions: Seq<Seq<char>>, newest: Seq<char>) -> Seq<Seq<char>> {
    sessions.filter(other_than(newest))
}

/// The names that tell a time.
pub open spec fn timed() -> spec_fn(Seq<char>) -> bool {
    |name: Seq<char>| session_key(name) is Some
}

/// How many of the first `n` places are those of names that tell a time.
pub open spec fn timed_before(places: Seq<Seq<char>>, n: int) -> nat {
    places.take(n).filter(timed()).len()
}

/// The places of the names that tell a time, filled with `by_age` in turn. All other names stay
/// where they are.
pub open spec fn refilled(places: Seq<Seq<char>>, by_age: Seq<Seq<char>>) -> Seq<Seq<char>> {
    Seq::new(
        places.len(),
        |i: int|
            if timed()(places[i]) {
                by_age[timed_before(places, i) as int]
            } else {
                places[i]
            },
    )
}

/// The order in which sessions go: that of the text of their names, but for those that tell a
/// time. These have the same places in it, and go by age among themselves.
pub open spec fn arranged(names: Seq<Seq<char>>) -> Seq<Seq<char>> {
    refilled(names.sort_by(text::text_order()), names.filter(timed()).sort_by(age_order()))
}

/// The sessions that have to go: the first of those other than `newest`, so many that
/// [`DEFAULT_MAX_SESSIONS`] are left.
pub open spec fn pruned(sessions: Seq<Seq<char>>, newest: Seq<char>) -> Seq<Seq<char>> {
    let order = arranged(others(sessions, newest));
    let excess = sessions.len() - DEFAULT_MAX_SESSIONS;
    if excess <= 0 {
        Seq::empty()
    } else if excess < order.len() {
        order.take(excess)
    } else {
        order
    }
}

/// The time and the try in the name of a session directory.
fn parse_session_key(name: &str) -> (key: Option<(Number, Number)>)
    ensures
        key is Some <==> session_key(name@) is Some,
        key matches Some((time, attempt)) ==> session_key(name@) == Some((time@, attempt@)),
{
    if !starts_with(name, "session_") {
        return None;
    }
    proof {
        reveal_strlit("session_");
    }
    let ghost rest = name@.skip(8);
    let n: usize = name.unicode_len();
    let mut i: usize = 8;
    while i < n && name.get_char(i) != '_'
        invariant
            8 <= i <= n == name@.len(),
            rest == name@.skip(8),
            forall|k: int| 0 <= k < i - 8 ==> rest[k] != '_',
        decreases n - i,
    {
        i += 1;
    }
    proof {
        rest.index_of_first_ensures('_');
        if i < n {
            assert(rest[i - 8] == '_');
        }
        assert(name@.subrange(8, i as int) =~= rest.take(i - 8));
    }
    let time = match Number::parse(name, 8, i) {
        Some(time) => time,
        None => {
            return None;
        },
    };
    if i == n {
        return Some((time, Number::zero()));
    }
    assert(name@.subrange(i + 1, n as int) =~= rest.skip(i - 8 + 1));
    match Number::parse(name, i + 1, n) {
        Some(attempt) => Some((time, attempt)),
        None => None,
    }
}

/// Whether `a` comes before `b`, or is equal to it, in the order of [`age_le`].
fn le_age(a: &str, b: &str) -> (r: bool)
    ensures
        r == age_le(a@, b@),
{
    match (parse_session_key(a), parse_session_key(b)) {
        (Some((s, i)), Some((t, j))) => {
            if s.less(&t) {
                true
            } else if t.less(&s) {
                false
            } else if i.less(&j) {
                true
            } else if j.less(&i) {
                false
            } else {
                le_text(a, b)
            }
        },
        (Some(_), None) => true,
        (None, Some(_)) => false,
        (None, None) => le_text(a, b),
    }
}

/// An order of names.
#[derive(Clone, Copy)]
enum NameOrder {
    Text,
    Age,
}

impl NameOrder {
    spec fn relation(self) -> spec_fn(Seq<char>, Seq<char>) -> bool {
        match self {
            NameOrder::Text => text::text_order(),
            NameOrder::Age => age_order(),
        }
    }

    proof fn lemma_total(self)
        ensures
            total_ordering(self.relation()),
    {
        match self {
            NameOrder::Text => text::lemma_text_order_total(),
            NameOrder::Age => lemma_age_order_total(),
        }
    }

    fn le(self, a: &str, b: &str) -> (r: bool)
        ensures
            r == self.relation()(a@, b@),
    {
        match self {
            NameOrder::Text => le_text(a, b),
            NameOrder::Age => le_age(a, b),
        }
    }
}

/// Puts `name` into its place among names that are in order.
fn insert_sorted(names: &mut Vec<String>, name: String, order: NameOrder)
    requires
        sorted_by(text::texts(old(names)@), order.relation()),
    ensures
        sorted_by(text::texts(final(names)@), order.relation()),
        text::texts(final(names)@).to_multiset() == text::texts(old(names)@).to_multiset().insert(
            name@,
        ),
{
    let ghost before = text::texts(names@);
    let ghost leq = order.relation();
    let mut i: usize = names.len();
    proof {
        order.lemma_total();
    }
    while i > 0 && !order.le(names[i - 1].as_str(), name.as_str())
        invariant
            i <= names@.len(),
            before == text::texts(names@),
            leq == order.relation(),
            forall|k: int| i <= k < before.len() ==> !leq(#[trigger] before[k], name@),
        decreases i,
    {
        i -= 1;
    }
    let ghost text = name@;
    assert(i > 0 ==> leq(before[i - 1], text));
    names.insert(i, name);
    proof {
        let after = text::texts(names@);
        assert(after =~= before.insert(i as int, text));
        after.to_multiset_ensures();
        assert(after.remove(i as int) =~= before);
        assert(after.contains(after[i as int]));
        assert(after.to_multiset() =~= before.to_multiset().insert(text));
        assert forall|a: int, b: int| 0 <= a < b < after.len() implies #[trigger] leq(
            after[a],
            after[b],
        ) by {
            if b < i {
                assert(leq(before[a], before[b]));
            } else if a > i {
                assert(leq(before[a - 1], before[b - 1]));
            } else if b == i {
                if a < i - 1 {
                    assert(leq(before[a], before[i - 1]));
                }
            } else if a == i {
                assert(!leq(before[b - 1], text));
                assert(leq(text, before[b - 1]) || leq(before[b - 1], text));
            } else {
                assert(leq(before[a], before[b - 1]));
            }
        }
    }
}

impl TelemetryLogger {
    /// The next step to a directory for a session, which will hold its log files. Names are tried
    /// one after the other until one is free.
    pub fn create_session_dir(progress: SessionDirProgress) -> (step: SessionDirStep)
        ensures
            step@ == next_step(progress),
            match progress {
                SessionDirProgress::Base { created, unix_ns } => if created {
                    step matches SessionDirStep::Try { name, attempt } && attempt == 0 && name@
                        == "session_"@ + text::decimal(unix_ns as nat)
                } else {
                    step is GiveUp
                },
                SessionDirProgress::Tried { created, unix_ns, attempt: tried } => if created {
                    step matches SessionDirStep::Finish { name } && name@ == (if tried == 0 {
                        "session_"@ + text::decimal(unix_ns as nat)
                    } else {
                        "session_"@ + text::decimal(unix_ns as nat) + "_"@ + text::decimal(
                            tried as nat,
                        )
                    })
                } else if tried < 99 {
                    step matches SessionDirStep::Try { name, attempt } && attempt == tried + 1
                        && name@ == "session_"@ + text::decimal(unix_ns as nat) + "_"@
                        + text::decimal(attempt as nat)
                } else {
                    step is GiveUp
                },
            },
    {
        match progress {
            SessionDirProgress::Base { created, unix_ns } => if created {
                SessionDirStep::Try { name: session_dir_name(unix_ns, 0), attempt: 0 }
            } else {
                SessionDirStep::GiveUp
            },
            SessionDirProgress::Tried { created, unix_ns, attempt } => if created {
                SessionDirStep::Finish { name: session_dir_name(unix_ns, attempt) }
            } else if attempt < MAX_ATTEMPTS - 1 {
                SessionDirStep::Try {
                    name: session_dir_name(unix_ns, attempt + 1),
                    attempt: attempt + 1,
                }
            } else {
                SessionDirStep::GiveUp
            },
        }
    }

    /// The session directories that have to go, in the order in which they are removed, where
    /// `entries` are the names in the directory of all sessions and `newest` is the session that
    /// has just been made. A name that is not text is given as `None`.
    pub fn prune_old_sessions(entries: Vec<Option<String>>, newest: &str) -> (removed: Vec<String>)
        ensures
            text::texts(removed@) == pruned(session_names(entries@), newest@),
            !text::texts(removed@).contains(newest@),
    {
        let mut by_text: Vec<String> = Vec::new();
        let mut by_age: Vec<String> = Vec::new();
        let mut total: usize = 0;
        let mut i: usize = 0;
        proof {
            reveal(Seq::filter);
            let none = others(session_names(entries@.take(0)), newest@);
            assert(text::texts(by_text@) =~= none);
            assert(text::texts(by_age@) =~= none.filter(timed()));
        }
        while i < entries.len()
            invariant
                i <= entries@.len(),
                total <= i,
                total == session_names(entries@.take(i as int)).len(),
                sorted_by(text::texts(by_text@), text::text_order()),
                sorted_by(text::texts(by_age@), age_order()),
                text::texts(by_text@).to_multiset() == others(
                    session_names(entries@.take(i as int)),
                    newest@,
                ).to_multiset(),
                text::texts(by_age@).to_multiset() == others(
                    session_names(entries@.take(i as int)),
                    newest@,
                ).filter(timed()).to_multiset(),
            decreases entries@.len() - i,
        {
            let ghost rest = others(session_names(entries@.take(i as int)), newest@);
            proof {
                assert(entries@.take(i + 1).drop_last() =~= entries@.take(i as int));
                assert(entries@.take(i + 1).last() == entries@[i as int]);
                rest.to_multiset_ensures();
                rest.filter(timed()).to_multiset_ensures();
            }
            if let Some(name) = &entries[i] {
                if starts_with(name.as_str(), "session_") {
                    proof {
                        lemma_filter_push(
                            session_names(entries@.take(i as int)),
                            name@,
                            other_than(newest@),
                        );
                        lemma_filter_push(rest, name@, timed());
                    }
                    total += 1;
                    if !same_text(name.as_str(), newest) {
                        insert_sorted(&mut by_text, name.clone(), NameOrder::Text);
                        if parse_session_key(name.as_str()).is_some() {
                            insert_sorted(&mut by_age, name.clone(), NameOrder::Age);
                        }
                    }
                }
            }
            i += 1;
        }
        let ghost places = text::texts(by_text@);
        let ghost ages = text::texts(by_age@);
        let ghost rest = others(session_names(entries@), newest@);
        proof {
            assert(entries@.take(i as int) =~= entries@);
            text::lemma_text_order_total();
            lemma_age_order_total();
            rest.lemma_sort_by_ensures(text::text_order());
            rest.filter(timed()).lemma_sort_by_ensures(age_order());
            vstd::seq_lib::lemma_sorted_unique(
                places,
                rest.sort_by(text::text_order()),
                text::text_order(),
            );
            vstd::seq_lib::lemma_sorted_unique(
                ages,
                rest.filter(timed()).sort_by(age_order()),
                age_order(),
            );
            lemma_arranged(rest);
            lemma_newest_not_pruned(session_names(entries@), newest@);
        }
        let mut removed: Vec<String> = Vec::new();
        if total <= DEFAULT_MAX_SESSIONS {
            assert(text::texts(removed@) =~= Seq::<Seq<char>>::empty());
            return removed;
        }
        let excess: usize = total - DEFAULT_MAX_SESSIONS;
        let count: usize = if excess < by_text.len() {
            excess
        } else {
            by_text.len()
        };
        let mut used: usize = 0;
        let mut k: usize = 0;
        assert(places.take(0) =~= Seq::<Seq<char>>::empty());
        assert(text::texts(removed@) =~= arranged(rest).take(0));
        proof {
            reveal(Seq::filter);
        }
        while k < count
            invariant
                k <= count <= by_text@.len(),
                places == text::texts(by_text@),
                ages == text::texts(by_age@),
                arranged(rest) == refilled(places, ages),
                ages.len() == timed_before(places, places.len() as int),
                used == timed_before(places, k as int),
                text::texts(removed@) == arranged(rest).take(k as int),
            decreases count - k,
        {
            let ghost before = removed@;
            proof {
                lemma_timed_before(places, k as int);
            }
            if parse_session_key(by_text[k].as_str()).is_some() {
                removed.push(by_age[used].clone());
                used += 1;
            } else {
                removed.push(by_text[k].clone());
            }
            assert(text::texts(removed@) =~= text::texts(before).push(arranged(rest)[k as int]));
            assert(arranged(rest).take(k as int).push(arranged(rest)[k as int])
                =~= arranged(rest).take(k + 1));
            k += 1;
        }
        assert(arranged(rest).take(places.len() as int) =~= arranged(rest));
        removed
    }
}

proof fn lemma_filter_push(
    names: Seq<Seq<char>>,
    name: Seq<char>,
    wanted: spec_fn(Seq<char>) -> bool,
)
    ensures
        names.push(name).filter(wanted) == if wanted(name) {
            names.filter(wanted).push(name)
        } else {
            names.filter(wanted)
        },
{
    reveal(Seq::filter);
    assert(names.push(name).drop_last() =~= names);
}

/// A filter lets the same of names through in whatever order they come.
proof fn lemma_filter_multiset(names: Seq<Seq<char>>, wanted: spec_fn(Seq<char>) -> bool)
    ensures
        names.filter(wanted).to_multiset() == names.to_multiset().filter(wanted),
    decreases names.len(),
{
    broadcast use vstd::multiset::group_multiset_axioms;

    names.to_multiset_ensures();
    names.filter(wanted).to_multiset_ensures();
    if names.len() == 0 {
        reveal(Seq::filter);
    } else {
        let rest = names.drop_last();
        lemma_filter_multiset(rest, wanted);
        lemma_filter_push(rest, names.last(), wanted);
        assert(rest.push(names.last()) =~= names);
        rest.to_multiset_ensures();
        rest.filter(wanted).to_multiset_ensures();
    }
    assert(names.filter(wanted).to_multiset() =~= names.to_multiset().filter(wanted));
}

/// One place further, and how many names that tell a time there are in all.
proof fn lemma_timed_before(places: Seq<Seq<char>>, n: int)
    requires
        0 <= n < places.len(),
    ensures
        timed_before(places, n + 1) == timed_before(places, n) + if timed()(places[n]) {
            1nat
        } else {
            0
        },
        timed_before(places, n + 1) <= timed_before(places, places.len() as int),
    decreases places.len() - n,
{
    assert(places.take(n).push(places[n]) =~= places.take(n + 1));
    lemma_filter_push(places.take(n), places[n], timed());
    if n + 1 < places.len() {
        lemma_timed_before(places, n + 1);
    }
}

/// The names before `n` are those that tell no time, and the first that do by age.
proof fn lemma_refilled(places: Seq<Seq<char>>, by_age: Seq<Seq<char>>, n: int)
    requires
        0 <= n <= places.len(),
        by_age.len() == timed_before(places, places.len() as int),
    ensures
        timed_before(places, n) <= by_age.len(),
        forall|name: Seq<char>| #[trigger]
            refilled(places, by_age).take(n).to_multiset().count(name) == by_age.take(
                timed_before(places, n) as int,
            ).to_multiset().count(name) + if timed()(name) {
                0
            } else {
                places.take(n).to_multiset().count(name)
            },
    decreases n,
{
    broadcast use vstd::multiset::group_multiset_axioms;

    let all = refilled(places, by_age);
    let c = timed_before(places, n) as int;
    all.take(n).to_multiset_ensures();
    places.take(n).to_multiset_ensures();
    if n == 0 {
        reveal(Seq::filter);
        assert(places.take(0) =~= Seq::<Seq<char>>::empty());
        by_age.take(c).to_multiset_ensures();
    } else {
        lemma_refilled(places, by_age, n - 1);
        lemma_timed_before(places, n - 1);
        let b = timed_before(places, n - 1) as int;
        all.take(n - 1).to_multiset_ensures();
        places.take(n - 1).to_multiset_ensures();
        by_age.take(b).to_multiset_ensures();
        assert(all.take(n - 1).push(all[n - 1]) =~= all.take(n));
        assert(places.take(n - 1).push(places[n - 1]) =~= places.take(n));
        if timed()(places[n - 1]) {
            assert(by_age.take(b).push(by_age[b]) =~= by_age.take(c));
        }
    }
}

/// The names in the order in which they go are the names, and go by text or by age.
proof fn lemma_arranged(names: Seq<Seq<char>>)
    ensures
        arranged(names).to_multiset() == names.to_multiset(),
        arranged(names).len() == names.len(),
        ({
            let by_text = names.sort_by(text::text_order());
            let by_age = names.filter(timed()).sort_by(age_order());
            &&& by_text.to_multiset() == names.to_multiset()
            &&& by_text.len() == names.len()
            &&& sorted_by(by_text, text::text_order())
            &&& by_age.to_multiset() == names.filter(timed()).to_multiset()
            &&& by_age.len() == timed_before(by_text, by_text.len() as int)
            &&& sorted_by(by_age, age_order())
            &&& forall|i: int| 0 <= i < by_age.len() ==> timed()(#[trigger] by_age[i])
        }),
{
    broadcast use vstd::multiset::group_multiset_axioms;

    let by_text = names.sort_by(text::text_order());
    let told = names.filter(timed());
    let by_age = told.sort_by(age_order());
    text::lemma_text_order_total();
    lemma_age_order_total();
    names.lemma_sort_by_ensures(text::text_order());
    told.lemma_sort_by_ensures(age_order());
    names.to_multiset_ensures();
    by_text.to_multiset_ensures();
    told.to_multiset_ensures();
    by_age.to_multiset_ensures();
    lemma_filter_multiset(names, timed());
    lemma_filter_multiset(by_text, timed());
    by_text.filter(timed()).to_multiset_ensures();
    assert(by_text.take(by_text.len() as int) =~= by_text);
    assert(by_age.len() == timed_before(by_text, by_text.len() as int));
    assert forall|i: int| 0 <= i < by_age.len() implies timed()(#[trigger] by_age[i]) by {
        assert(by_age.contains(by_age[i]));
        assert(by_age.to_multiset().count(by_age[i]) > 0);
    }
    let all = refilled(by_text, by_age);
    lemma_refilled(by_text, by_age, by_text.len() as int);
    assert(all.take(by_text.len() as int) =~= all);
    assert(by_age.take(by_age.len() as int) =~= by_age);
    assert forall|name: Seq<char>| #[trigger] all.to_multiset().count(name)
        == names.to_multiset().count(name) by {
        assert(told.to_multiset().count(name) == names.to_multiset().filter(timed()).count(name));
    }
    assert(all.to_multiset() =~= names.to_multiset());
}

/// Of two names, where both tell a time, or neither does, the first to go is the older one, or the
/// first by text.
proof fn lemma_arranged_order(names: Seq<Seq<char>>, i: int, j: int)
    requires
        0 <= i < j < names.len(),
    ensures
        match (session_key(arranged(names)[i]), session_key(arranged(names)[j])) {
            (Some((s, k)), Some((t, l))) => s < t || (s == t && k <= l),
            (None, None) => text::text_le(arranged(names)[i], arranged(names)[j]),
            _ => true,
        },
{
    let by_text = names.sort_by(text::text_order());
    let by_age = names.filter(timed()).sort_by(age_order());
    lemma_arranged(names);
    lemma_timed_before(by_text, i);
    lemma_timed_before(by_text, j);
    if timed()(by_text[i]) && timed()(by_text[j]) {
        lemma_timed_before_grows(by_text, i + 1, j);
        let leq = age_order();
        assert(leq(
            by_age[timed_before(by_text, i) as int],
            by_age[timed_before(by_text, j) as int],
        ));
    } else if !timed()(by_text[i]) && !timed()(by_text[j]) {
        let leq = text::text_order();
        assert(leq(by_text[i], by_text[j]));
    }
}

proof fn lemma_timed_before_grows(places: Seq<Seq<char>>, m: int, n: int)
    requires
        0 <= m <= n <= places.len(),
    ensures
        timed_before(places, m) <= timed_before(places, n),
    decreases n - m,
{
    if m < n {
        lemma_timed_before(places, m);
        lemma_timed_before_grows(places, m + 1, n);
    }
}

/// What is pruned is the first part of the order in which the other sessions go.
proof fn lemma_pruned_at(sessions: Seq<Seq<char>>, newest: Seq<char>, i: int)
    requires
        0 <= i < pruned(sessions, newest).len(),
    ensures
        pruned(sessions, newest).len() <= arranged(others(sessions, newest)).len(),
        pruned(sessions, newest)[i] == arranged(others(sessions, newest))[i],
        others(sessions, newest).contains(pruned(sessions, newest)[i]),
{
    let rest = others(sessions, newest);
    let order = arranged(rest);
    lemma_arranged(rest);
    rest.to_multiset_ensures();
    order.to_multiset_ensures();
    assert(order.contains(order[i]));
    assert(rest.to_multiset().count(order[i]) > 0);
}

proof fn lemma_newest_not_pruned(sessions: Seq<Seq<char>>, newest: Seq<char>)
    ensures
        !pruned(sessions, newest).contains(newest),
{
    let gone = pruned(sessions, newest);
    if gone.contains(newest) {
        let i = choose|i: int| 0 <= i < gone.len() && gone[i] == newest;
        lemma_pruned_at(sessions, newest, i);
        let rest = others(sessions, newest);
        let j = choose|j: int| 0 <= j < rest.len() && rest[j] == newest;
        sessions.lemma_filter_pred(other_than(newest), j);
    }
}

/// How often `newest` stands among the sessions: once where it is one of the names in a directory.
pub open spec fn occurrences(sessions: Seq<Seq<char>>, newest: Seq<char>) -> nat {
    sessions.to_multiset().count(newest)
}

/// The sessions that stay when the old ones have gone: the others in the order in which they would
/// go next, then the newest.
pub open spec fn kept(sessions: Seq<Seq<char>>, newest: Seq<char>) -> Seq<Seq<char>> {
    arranged(others(sessions, newest)).skip(pruned(sessions, newest).len() as int)
        + Seq::new(occurrences(sessions, newest), |i: int| newest)
}

/// The other sessions and the newest are all the sessions.
proof fn lemma_others(sessions: Seq<Seq<char>>, newest: Seq<char>)
    ensures
        others(sessions, newest).len() + occurrences(sessions, newest) == sessions.len(),
        forall|name: Seq<char>|
            name != newest ==> #[trigger] others(sessions, newest).to_multiset().count(name)
                == sessions.to_multiset().count(name),
        others(sessions, newest).to_multiset().count(newest) == 0,
    decreases sessions.len(),
{
    broadcast use vstd::multiset::group_multiset_axioms;

    sessions.to_multiset_ensures();
    others(sessions, newest).to_multiset_ensures();
    if sessions.len() == 0 {
        reveal(Seq::filter);
    } else {
        let rest = sessions.drop_last();
        let last = sessions.last();
        lemma_others(rest, newest);
        lemma_filter_push(rest, last, other_than(newest));
        assert(rest.push(last) =~= sessions);
        rest.to_multiset_ensures();
        others(rest, newest).to_multiset_ensures();
        assert(sessions.to_multiset() == rest.to_multiset().insert(last));
    }
}

proof fn lemma_repeated(name: Seq<char>, n: nat)
    ensures
        ({
            let repeated = Seq::new(n, |i: int| name);
            &&& repeated.to_multiset().count(name) == n
            &&& forall|other: Seq<char>|
                other != name ==> #[trigger] repeated.to_multiset().count(other) == 0
        }),
    decreases n,
{
    broadcast use vstd::multiset::group_multiset_axioms;

    let repeated = Seq::new(n, |i: int| name);
    repeated.to_multiset_ensures();
    if n > 0 {
        let fewer = Seq::new((n - 1) as nat, |i: int| name);
        lemma_repeated(name, (n - 1) as nat);
        fewer.to_multiset_ensures();
        assert(repeated =~= fewer.push(name));
    }
}

/// Each session either goes or stays.
pub proof fn law_pruning_splits_the_sessions(sessions: Seq<Seq<char>>, newest: Seq<char>)
    ensures
        (pruned(sessions, newest) + kept(sessions, newest)).to_multiset() == sessions.to_multiset(),
        pruned(sessions, newest).len() + kept(sessions, newest).len() == sessions.len(),
{
    broadcast use vstd::multiset::group_multiset_axioms;

    let order = arranged(others(sessions, newest));
    let repeated = Seq::new(occurrences(sessions, newest), |i: int| newest);
    lemma_others(sessions, newest);
    lemma_arranged(others(sessions, newest));
    lemma_repeated(newest, occurrences(sessions, newest));
    let all = pruned(sessions, newest) + kept(sessions, newest);
    assert(all =~= order + repeated);
    vstd::seq_lib::lemma_multiset_commutative(order, repeated);
    assert forall|name: Seq<char>| #[trigger] all.to_multiset().count(name)
        == sessions.to_multiset().count(name) by {
        assert(others(sessions, newest).to_multiset().count(name)
            + repeated.to_multiset().count(name) == sessions.to_multiset().count(name));
    }
    assert(all.to_multiset() =~= sessions.to_multiset());
}

/// As many sessions stay as may, and no session goes where all may stay. The newest must not be
/// listed more often than that.
pub proof fn law_pruning_keeps_the_limit(sessions: Seq<Seq<char>>, newest: Seq<char>)
    requires
        occurrences(sessions, newest) <= DEFAULT_MAX_SESSIONS,
    ensures
        sessions.len() > DEFAULT_MAX_SESSIONS ==> kept(sessions, newest).len()
            == DEFAULT_MAX_SESSIONS,
        sessions.len() <= DEFAULT_MAX_SESSIONS ==> pruned(sessions, newest).len() == 0,
{
    law_pruning_splits_the_sessions(sessions, newest);
    lemma_others(sessions, newest);
    lemma_arranged(others(sessions, newest));
}

/// The oldest sessions go. Of those whose names tell a time, one that goes is no younger than one
/// that stays, by the times and tries in their names, unless that is the newest. Of those whose
/// names tell none, the first by text go. Both go in that order.
pub proof fn law_the_oldest_go_first(
    sessions: Seq<Seq<char>>,
    newest: Seq<char>,
    gone: int,
    left: int,
)
    requires
        0 <= gone < pruned(sessions, newest).len(),
        0 <= left < kept(sessions, newest).len(),
        kept(sessions, newest)[left] != newest,
    ensures
        match (
            session_key(pruned(sessions, newest)[gone]),
            session_key(kept(sessions, newest)[left]),
        ) {
            (Some((s, i)), Some((t, j))) => s < t || (s == t && i <= j),
            (None, None) => text::text_le(
                pruned(sessions, newest)[gone],
                kept(sessions, newest)[left],
            ),
            _ => true,
        },
        forall|later: int|
            gone < later < pruned(sessions, newest).len() ==> match (
                session_key(pruned(sessions, newest)[gone]),
                session_key(#[trigger] pruned(sessions, newest)[later]),
            ) {
                (Some((s, i)), Some((t, j))) => s < t || (s == t && i <= j),
                (None, None) => text::text_le(
                    pruned(sessions, newest)[gone],
                    pruned(sessions, newest)[later],
                ),
                _ => true,
            },
{
    let rest = others(sessions, newest);
    let n = pruned(sessions, newest).len() as int;
    lemma_arranged(rest);
    lemma_pruned_at(sessions, newest, gone);
    assert(left < rest.len() - n);
    assert(kept(sessions, newest)[left] == arranged(rest)[n + left]);
    lemma_arranged_order(rest, gone, n + left);
    assert forall|later: int| gone < later < n implies match (
        session_key(pruned(sessions, newest)[gone]),
        session_key(#[trigger] pruned(sessions, newest)[later]),
    ) {
        (Some((s, i)), Some((t, j))) => s < t || (s == t && i <= j),
        (None, None) => text::text_le(
            pruned(sessions, newest)[gone],
            pruned(sessions, newest)[later],
        ),
        _ => true,
    } by {
        lemma_pruned_at(sessions, newest, later);
        lemma_arranged_order(rest, gone, later);
    }
}

/// A name that tells no time goes exactly when it would if all went by text: it has the place that
/// the text gives it, and so have those that tell a time, taken together.
pub proof fn law_other_names_go_by_text(sessions: Seq<Seq<char>>, newest: Seq<char>, place: int)
    requires
        0 <= place < pruned(sessions, newest).len(),
    ensures
        ({
            let by_text = others(sessions, newest).sort_by(text::text_order());
            let name = pruned(sessions, newest)[place];
            &&& session_key(name) is Some <==> session_key(by_text[place]) is Some
            &&& session_key(name) is None ==> name == by_text[place]
        }),
{
    let rest = others(sessions, newest);
    lemma_arranged(rest);
    lemma_pruned_at(sessions, newest, place);
    lemma_timed_before(rest.sort_by(text::text_order()), place);
}

proof fn lemma_filter_at(names: Seq<Seq<char>>, n: int)
    requires
        0 <= n < names.len(),
        timed()(names[n]),
    ensures
        timed_before(names, n) < names.filter(timed()).len(),
        names.filter(timed())[timed_before(names, n) as int] == names[n],
    decreases names.len(),
{
    let rest = names.drop_last();
    assert(rest.push(names.last()) =~= names);
    lemma_filter_push(rest, names.last(), timed());
    if n < rest.len() {
        lemma_filter_at(rest, n);
        assert(rest.take(n) =~= names.take(n));
    } else {
        assert(names.take(n) =~= rest);
    }
}

proof fn lemma_filter_sorted(names: Seq<Seq<char>>)
    requires
        sorted_by(names, text::text_order()),
    ensures
        sorted_by(names.filter(timed()), text::text_order()),
    decreases names.len(),
{
    let leq = text::text_order();
    let told = names.filter(timed());
    if names.len() == 0 {
        reveal(Seq::filter);
    } else {
        let rest = names.drop_last();
        assert forall|a: int, b: int| 0 <= a < b < rest.len() implies #[trigger] leq(
            rest[a],
            rest[b],
        ) by {
            assert(leq(names[a], names[b]));
        }
        assert(rest.push(names.last()) =~= names);
        lemma_filter_sorted(rest);
        lemma_filter_push(rest, names.last(), timed());
        assert forall|a: int, b: int| 0 <= a < b < told.len() implies #[trigger] leq(
            told[a],
            told[b],
        ) by {
            if b < rest.filter(timed()).len() {
                assert(leq(rest.filter(timed())[a], rest.filter(timed())[b]));
            } else {
                assert(rest.filter(timed()).contains(told[a]));
                rest.lemma_filter_contains_rev(timed(), told[a]);
                let k = choose|k: int| 0 <= k < rest.len() && rest[k] == told[a];
                assert(leq(names[k], names[names.len() - 1]));
            }
        }
    }
}

/// Where the texts of the names that tell a time are in the order of their age, sessions go in the
/// order of the text of their names.
pub proof fn law_text_order_is_kept(sessions: Seq<Seq<char>>, newest: Seq<char>)
    requires
        forall|a: Seq<char>, b: Seq<char>|
            #![trigger age_le(a, b)]
            sessions.contains(a) && sessions.contains(b) && session_key(a) is Some && session_key(
                b,
            ) is Some && age_le(a, b) ==> text::text_le(a, b),
    ensures
        pruned(sessions, newest) == others(sessions, newest).sort_by(text::text_order()).take(
            pruned(sessions, newest).len() as int,
        ),
{
    broadcast use vstd::multiset::group_multiset_axioms;

    let rest = others(sessions, newest);
    let by_text = rest.sort_by(text::text_order());
    let by_age = rest.filter(timed()).sort_by(age_order());
    let told = by_text.filter(timed());
    text::lemma_text_order_total();
    lemma_age_order_total();
    lemma_arranged(rest);
    lemma_filter_sorted(by_text);
    lemma_filter_multiset(rest, timed());
    lemma_filter_multiset(by_text, timed());
    rest.to_multiset_ensures();
    told.to_multiset_ensures();
    let by_name = text::text_order();
    let leq = age_order();
    assert forall|i: int| 0 <= i < told.len() implies sessions.contains(#[trigger] told[i])
        && session_key(told[i]) is Some by {
        by_text.lemma_filter_pred(timed(), i);
        assert(told.contains(told[i]));
        assert(told.to_multiset().count(told[i]) > 0);
        assert(rest.to_multiset().count(told[i]) > 0);
        assert(rest.contains(told[i]));
        sessions.lemma_filter_contains_rev(other_than(newest), told[i]);
    }
    assert forall|i: int, j: int| 0 <= i < j < told.len() implies #[trigger] leq(
        told[i],
        told[j],
    ) by {
        assert(by_name(told[i], told[j]));
        assert(leq(told[i], told[j]) || leq(told[j], told[i]));
        if age_le(told[j], told[i]) {
            assert(by_name(told[j], told[i]));
        }
    }
    vstd::seq_lib::lemma_sorted_unique(told, by_age, leq);
    assert forall|i: int| 0 <= i < by_text.len() implies arranged(rest)[i] == by_text[i] by {
        if timed()(by_text[i]) {
            lemma_filter_at(by_text, i);
        }
    }
    assert(arranged(rest) =~= by_text);
    assert(by_text.take(by_text.len() as int) =~= by_text);
}

/// One session more than may stay evicts the oldest one of the others, where their names tell
/// their times.
pub proof fn law_one_more_evicts_the_oldest(
    sessions: Seq<Seq<char>>,
    newest: Seq<char>,
    oldest: Seq<char>,
)
    requires
        sessions.len() == DEFAULT_MAX_SESSIONS + 1,
        sessions.contains(oldest),
        oldest != newest,
        forall|i: int|
            0 <= i < sessions.len() && sessions[i] != newest ==> session_key(
                #[trigger] sessions[i],
            ) is Some && age_le(oldest, sessions[i]),
    ensures
        pruned(sessions, newest) == seq![oldest],
{
    let leq = age_order();
    let rest = others(sessions, newest);
    let order = arranged(rest);
    lemma_age_order_total();
    lemma_arranged(rest);
    let i = choose|i: int| 0 <= i < sessions.len() && sessions[i] == oldest;
    sessions.lemma_filter_contains(other_than(newest), i);
    rest.to_multiset_ensures();
    assert(rest.to_multiset().count(oldest) > 0);
    lemma_all_timed(rest, sessions, newest);
    let sorted = rest.sort_by(leq);
    rest.lemma_sort_by_ensures(leq);
    sorted.to_multiset_ensures();
    assert(sorted.contains(oldest));
    let j = choose|j: int| 0 <= j < sorted.len() && sorted[j] == oldest;
    assert(sorted.contains(sorted[0]));
    assert(rest.to_multiset().count(sorted[0]) > 0);
    assert(rest.contains(sorted[0]));
    let k = choose|k: int| 0 <= k < rest.len() && rest[k] == sorted[0];
    sessions.lemma_filter_pred(other_than(newest), k);
    sessions.lemma_filter_contains_rev(other_than(newest), sorted[0]);
    let m = choose|m: int| 0 <= m < sessions.len() && sessions[m] == sorted[0];
    assert(leq(oldest, sessions[m]));
    if j > 0 {
        assert(leq(sorted[0], sorted[j]));
    }
    assert(sorted[0] == oldest);
    let by_text = rest.sort_by(text::text_order());
    by_text.to_multiset_ensures();
    assert(by_text.contains(by_text[0]));
    assert(rest.to_multiset().count(by_text[0]) > 0);
    assert(rest.contains(by_text[0]));
    let l = choose|l: int| 0 <= l < rest.len() && rest[l] == by_text[0];
    assert(timed()(rest[l]));
    reveal(Seq::filter);
    assert(by_text.take(0) =~= Seq::<Seq<char>>::empty());
    assert(order[0] == sorted[0]);
    assert(pruned(sessions, newest) =~= seq![oldest]);
}

/// Where all the other sessions tell a time, a filter lets all of them through.
proof fn lemma_all_timed(rest: Seq<Seq<char>>, sessions: Seq<Seq<char>>, newest: Seq<char>)
    requires
        rest == others(sessions, newest),
        forall|i: int|
            0 <= i < sessions.len() && sessions[i] != newest ==> session_key(
                #[trigger] sessions[i],
            ) is Some,
    ensures
        forall|i: int| 0 <= i < rest.len() ==> timed()(#[trigger] rest[i]),
        rest.filter(timed()) == rest,
{
    assert forall|i: int| 0 <= i < rest.len() implies timed()(#[trigger] rest[i]) by {
        sessions.lemma_filter_pred(other_than(newest), i);
        assert(rest.contains(rest[i]));
        sessions.lemma_filter_contains_rev(other_than(newest), rest[i]);
        let k = choose|k: int| 0 <= k < sessions.len() && sessions[k] == rest[i];
        assert(sessions[k] != newest);
    }
    lemma_filter_all(rest);
}

proof fn lemma_filter_all(names: Seq<Seq<char>>)
    requires
        forall|i: int| 0 <= i < names.len() ==> timed()(#[trigger] names[i]),
    ensures
        names.filter(timed()) == names,
    decreases names.len(),
{
    if names.len() == 0 {
        reveal(Seq::filter);
    } else {
        let rest = names.drop_last();
        assert forall|i: int| 0 <= i < rest.len() implies timed()(#[trigger] rest[i]) by {
            assert(rest[i] == names[i]);
        }
        lemma_filter_all(rest);
        lemma_filter_push(rest, names.last(), timed());
        assert(rest.push(names.last()) =~= names);
    }
}

/// Pruning what stayed removes nothing.
pub proof fn law_pruning_twice(sessions: Seq<Seq<char>>, newest: Seq<char>)
    ensures
        pruned(kept(sessions, newest), newest).len() == 0,
{
    let stay = kept(sessions, newest);
    law_pruning_splits_the_sessions(sessions, newest);
    lemma_others(sessions, newest);
    lemma_arranged(others(sessions, newest));
    if stay.len() > DEFAULT_MAX_SESSIONS {
        assert(forall|i: int| 0 <= i < stay.len() ==> #[trigger] stay[i] == newest);
        stay.lemma_all_neg_filter_empty(other_than(newest));
        lemma_arranged(others(stay, newest));
    }
}

/// The newest session does not go, and stays where it is one of the sessions, whatever the times
/// of the others are.
pub proof fn law_the_newest_stays(sessions: Seq<Seq<char>>, newest: Seq<char>)
    ensures
        !pruned(sessions, newest).contains(newest),
        sessions.contains(newest) ==> kept(sessions, newest).contains(newest),
{
    lemma_newest_not_pruned(sessions, newest);
    if sessions.contains(newest) {
        let stay = kept(sessions, newest);
        sessions.to_multiset_ensures();
        assert(occurrences(sessions, newest) > 0);
        assert(stay[stay.len() - 1] == newest);
    }
}

/// The session directory that has just been made is not among those that are pruned after it.
pub proof fn law_new_directory_stays(
    progress: SessionDirProgress,
    name: Seq<char>,
    entries: Seq<Option<String>>,
)
    requires
        next_step(progress) == (Step::Finish { name }),
    ensures
        !pruned(session_names(entries), name).contains(name),
        (exists|i: int|
            0 <= i < entries.len() && (#[trigger] entries[i]) is Some && entries[i]->0@ == name)
            ==> kept(session_names(entries), name).contains(name),
{
    law_the_newest_stays(session_names(entries), name);
    if exists|i: int|
        0 <= i < entries.len() && (#[trigger] entries[i]) is Some && entries[i]->0@ == name {
        let i = choose|i: int|
            0 <= i < entries.len() && (#[trigger] entries[i]) is Some && entries[i]->0@ == name;
        reveal_strlit("session_");
        assert("session_"@ =~= name.subrange(0, 8));
        lemma_session_listed(entries, i);
    }
}

/// A session directory among the entries is among the sessions.
proof fn lemma_session_listed(entries: Seq<Option<String>>, i: int)
    requires
        0 <= i < entries.len(),
        is_session(entries[i]),
    ensures
        session_names(entries).contains(entries[i]->0@),
    decreases entries.len(),
{
    let before = session_names(entries.drop_last());
    if i < entries.len() - 1 {
        lemma_session_listed(entries.drop_last(), i);
        let j = choose|j: int| 0 <= j < before.len() && before[j] == entries[i]->0@;
        assert(session_names(entries)[j] == entries[i]->0@);
    } else {
        assert(session_names(entries)[before.len() as int] == entries[i]->0@);
    }
}

/// Only names of session directories among the entries are removed.
pub proof fn law_only_sessions_go(
    entries: Seq<Option<String>>,
    newest: Seq<char>,
    name: Seq<char>,
)
    requires
        pruned(session_names(entries), newest).contains(name),
    ensures
        "session_"@.is_prefix_of(name),
        exists|i: int|
            0 <= i < entries.len() && (#[trigger] entries[i]) is Some && entries[i]->0@ == name,
{
    let sessions = session_names(entries);
    let gone = pruned(sessions, newest);
    let i = choose|i: int| 0 <= i < gone.len() && gone[i] == name;
    lemma_pruned_at(sessions, newest, i);
    sessions.lemma_filter_contains_rev(other_than(newest), name);
    lemma_session_names_contains(entries, name);
}

proof fn lemma_session_names_contains(entries: Seq<Option<String>>, name: Seq<char>)
    requires
        session_names(entries).contains(name),
    ensures
        "session_"@.is_prefix_of(name),
        exists|i: int|
            0 <= i < entries.len() && (#[trigger] entries[i]) is Some && entries[i]->0@ == name,
    decreases entries.len(),
{
    if entries.len() > 0 {
        let rest = entries.drop_last();
        if is_session(entries.last()) && entries.last()->0@ == name {
            assert(entries[entries.len() - 1] is Some);
        } else {
            let names = session_names(entries);
            let i = choose|i: int| 0 <= i < names.len() && names[i] == name;
            assert(session_names(rest).contains(name)) by {
                assert(session_names(rest)[i] == name);
            }
            lemma_session_names_contains(rest, name);
            let j = choose|j: int|
                0 <= j < rest.len() && (#[trigger] rest[j]) is Some && rest[j]->0@ == name;
            assert(entries[j] == rest[j]);
        }
    }
}

/// The directory that comes of trying names, where `free` says which names can be created.
pub open spec fn search(unix_ns: u128, free: spec_fn(Seq<char>) -> bool, attempt: nat) -> Option<
    Seq<char>,
>
    decreases MAX_ATTEMPTS - attempt,
{
    match try_step(unix_ns as nat, attempt) {
        Step::Try { name, attempt } => match next_step(
            SessionDirProgress::Tried { created: free(name), unix_ns, attempt: attempt as u32 },
        ) {
            Step::Finish { name } => Some(name),
            _ => search(unix_ns, free, attempt + 1),
        },
        _ => None,
    }
}

/// A new session gets the first name that is free, of the first hundred; where none of them is,
/// it gets no directory.
pub proof fn law_first_free_name(unix_ns: u128, free: spec_fn(Seq<char>) -> bool, attempt: nat)
    ensures
        match search(unix_ns, free, attempt) {
            Some(name) => exists|k: nat|
                attempt <= k < MAX_ATTEMPTS && name == #[trigger] session_name(unix_ns as nat, k)
                    && free(name) && forall|j: nat|
                    attempt <= j < k ==> !free(#[trigger] session_name(unix_ns as nat, j)),
            None => forall|j: nat|
                attempt <= j < MAX_ATTEMPTS ==> !free(#[trigger] session_name(unix_ns as nat, j)),
        },
    decreases MAX_ATTEMPTS - attempt,
{
    if attempt < MAX_ATTEMPTS && !free(session_name(unix_ns as nat, attempt)) {
        law_first_free_name(unix_ns, free, attempt + 1);
        match search(unix_ns, free, attempt + 1) {
            Some(name) => {
                let k = choose|k: nat|
                    attempt + 1 <= k < MAX_ATTEMPTS && name == #[trigger] session_name(
                        unix_ns as nat,
                        k,
                    ) && free(name) && forall|j: nat|
                        attempt + 1 <= j < k ==> !free(#[trigger] session_name(unix_ns as nat, j));
                assert forall|j: nat| attempt <= j < k implies !free(
                    #[trigger] session_name(unix_ns as nat, j),
                ) by {}
            },
            None => {},
        }
    }
}

/// The time and the try of a session directory can be told from its name.
pub proof fn law_name_tells_time_and_try(unix_ns: nat, attempt: nat)
    ensures
        session_key(session_name(unix_ns, attempt)) == Some((unix_ns, attempt)),
{
    reveal_strlit("session_");
    reveal_strlit("_");
    let name = session_name(unix_ns, attempt);
    let rest = name.skip(8);
    let time = text::decimal(unix_ns);
    text::lemma_decimal_digits(unix_ns);
    number::law_decimal_reads_back(unix_ns);
    rest.index_of_first_ensures('_');
    assert("session_"@ =~= name.subrange(0, 8));
    if attempt == 0 {
        assert(rest =~= time);
        if let Some(place) = rest.index_of_first('_') {
            assert('0' <= time[place] <= '9');
        }
    } else {
        let place = time.len() as int;
        assert(rest[place] == '_');
        let first = rest.index_of_first('_')->0;
        if first < place {
            assert(rest[first] == time[first]);
        }
        assert(rest.take(place) =~= time);
        assert(rest.skip(place + 1) =~= text::decimal(attempt));
        number::law_decimal_reads_back(attempt);
    }
}

/// Different times or different tries give different names.
pub proof fn law_session_names_distinct(a: nat, i: nat, b: nat, j: nat)
    requires
        session_name(a, i) == session_name(b, j),
    ensures
        a == b,
        i == j,
{
    law_name_tells_time_and_try(a, i);
    law_name_tells_time_and_try(b, j);
}

/// The order of session directories by age is that of the times in their names, and of the tries
/// where the times are the same.
pub proof fn law_names_follow_time(a: nat, i: nat, b: nat, j: nat)
    requires
        a < b || (a == b && i < j),
    ensures
        age_le(session_name(a, i), session_name(b, j)),
        !age_le(session_name(b, j), session_name(a, i)),
{
    law_name_tells_time_and_try(a, i);
    law_name_tells_time_and_try(b, j);
}

/// The first try has the name of the time, and each other one the number of the try behind it.
pub proof fn law_names_of_tries(unix_ns: nat, attempt: nat)
    ensures
        session_name(unix_ns, 0) == "session_"@ + text::decimal(unix_ns),
        attempt > 0 ==> session_name(unix_ns, attempt) == session_name(unix_ns, 0) + "_"@
            + text::decimal(attempt),
{
}

/// The directory that is handed back is the one that was tried last and could be created; one that
/// could not be is followed by the next try, up to the hundredth, and nothing is tried where there
/// is no directory for sessions.
pub proof fn law_what_was_created_is_handed_back(unix_ns: u128, attempt: u32)
    ensures
        next_step(SessionDirProgress::Base { created: false, unix_ns }) is GiveUp,
        next_step(SessionDirProgress::Base { created: true, unix_ns }) == (Step::Try {
            name: session_name(unix_ns as nat, 0),
            attempt: 0,
        }),
        next_step(SessionDirProgress::Tried { created: true, unix_ns, attempt })
            == (Step::Finish { name: session_name(unix_ns as nat, attempt as nat) }),
        attempt < 99 ==> next_step(SessionDirProgress::Tried { created: false, unix_ns, attempt })
            == (Step::Try {
            name: session_name(unix_ns as nat, (attempt + 1) as nat),
            attempt: (attempt + 1) as nat,
        }),
        attempt >= 99 ==> next_step(
            SessionDirProgress::Tried { created: false, unix_ns, attempt },
        ) is GiveUp,
{
}

/// The sessions are the entries whose names begin as those of sessions do, in the order of the
/// entries. Each other entry is passed over.
pub proof fn law_sessions_among_entries(entries: Seq<Option<String>>, name: String)
    ensures
        session_names(Seq::empty()).len() == 0,
        session_names(entries.push(None)) == session_names(entries),
        session_names(entries.push(Some(name))) == if "session_"@.is_prefix_of(name@) {
            session_names(entries).push(name@)
        } else {
            session_names(entries)
        },
{
    assert(entries.push(None).drop_last() =~= entries);
    assert(entries.push(Some(name)).drop_last() =~= entries);
}

/// A name tells the number behind its beginning as the time, and the number behind a second
/// underscore as the try. Without that it is the first try.
pub proof fn law_name_of_digits(time: Seq<char>, attempt: Seq<char>)
    requires
        time.len() > 0,
        number::all_digits(time),
        attempt.len() > 0,
        number::all_digits(attempt),
    ensures
        session_key("session_"@ + time) == Some((number::value(time), 0nat)),
        session_key("session_"@ + time + "_"@ + attempt) == Some(
            (number::value(time), number::value(attempt)),
        ),
{
    reveal_strlit("session_");
    reveal_strlit("_");
    let short = "session_"@ + time;
    let long = "session_"@ + time + "_"@ + attempt;
    let place = time.len() as int;
    assert("session_"@ =~= short.subrange(0, 8));
    assert("session_"@ =~= long.subrange(0, 8));
    assert(short.skip(8) =~= time);
    let rest = long.skip(8);
    time.index_of_first_ensures('_');
    rest.index_of_first_ensures('_');
    if let Some(found) = time.index_of_first('_') {
        assert('0' <= time[found] <= '9');
    }
    assert(rest[place] == '_');
    let first = rest.index_of_first('_')->0;
    if first < place {
        assert(rest[first] == time[first]);
    }
    assert(rest.take(place) =~= time);
    assert(rest.skip(place + 1) =~= attempt);
}

/// A name that tells a time is made of its beginning and digits, and an underscore and digits
/// behind these where it tells a try.
pub proof fn law_only_digits_tell_a_time(name: Seq<char>)
    requires
        session_key(name) is Some,
    ensures
        exists|time: Seq<char>, attempt: Seq<char>|
            #![trigger number::all_digits(time), number::all_digits(attempt)]
            {
                &&& time.len() > 0 && number::all_digits(time)
                &&& number::all_digits(attempt)
                &&& session_key(name) == Some((number::value(time), number::value(attempt)))
                &&& if attempt.len() == 0 {
                    name == "session_"@ + time
                } else {
                    name == "session_"@ + time + "_"@ + attempt
                }
            },
{
    reveal_strlit("session_");
    reveal_strlit("_");
    let rest = name.skip(8);
    rest.index_of_first_ensures('_');
    assert(name =~= name.subrange(0, 8) + rest);
    match rest.index_of_first('_') {
        None => {
            let none = Seq::<char>::empty();
            assert(number::all_digits(rest) && number::all_digits(none));
            assert(number::value(none) == 0);
        },
        Some(place) => {
            let time = rest.take(place);
            let attempt = rest.skip(place + 1);
            assert(number::all_digits(time) && number::all_digits(attempt));
            assert(rest =~= time + "_"@ + attempt);
            assert(name =~= "session_"@ + time + "_"@ + attempt);
        },
    }
}

/// Of two names that tell a time, the one with the earlier time comes first; at the same time, the
/// one with the earlier try; and where they tell the same, the first by text.
pub proof fn law_age_is_by_time_and_try(a: Seq<char>, b: Seq<char>, s: nat, i: nat, t: nat, j: nat)
    requires
        session_key(a) == Some((s, i)),
        session_key(b) == Some((t, j)),
    ensures
        s < t ==> age_le(a, b) && !age_le(b, a),
        s == t && i < j ==> age_le(a, b) && !age_le(b, a),
        s == t && i == j ==> age_le(a, b) == text::text_le(a, b),
{
}

/// Of the names in a directory, so many go that ten are left, and each of those that go is one of
/// them, and not the newest.
pub proof fn law_how_many_go(sessions: Seq<Seq<char>>, newest: Seq<char>)
    requires
        sessions.no_duplicates(),
    ensures
        sessions.len() <= 10 ==> pruned(sessions, newest).len() == 0,
        sessions.len() > 10 ==> pruned(sessions, newest).len() == sessions.len() - 10,
        pruned(sessions, newest).no_duplicates(),
        forall|i: int|
            0 <= i < pruned(sessions, newest).len() ==> sessions.contains(
                #[trigger] pruned(sessions, newest)[i],
            ) && pruned(sessions, newest)[i] != newest,
{
    let gone = pruned(sessions, newest);
    let rest = others(sessions, newest);
    sessions.lemma_multiset_has_no_duplicates();
    sessions.to_multiset_ensures();
    assert(sessions.to_multiset().contains(newest) ==> occurrences(sessions, newest) == 1);
    law_pruning_splits_the_sessions(sessions, newest);
    law_pruning_keeps_the_limit(sessions, newest);
    lemma_newest_not_pruned(sessions, newest);
    lemma_others(sessions, newest);
    lemma_arranged(rest);
    let order = arranged(rest);
    order.to_multiset_ensures();
    let bag = order.to_multiset();
    assert forall|name: Seq<char>| bag.contains(name) implies bag.count(name) == 1 by {
        assert(name != newest);
        assert(rest.to_multiset().count(name) == sessions.to_multiset().count(name));
        assert(sessions.to_multiset().contains(name));
    }
    order.lemma_multiset_has_no_duplicates_conv();
    assert forall|i: int| 0 <= i < gone.len() implies sessions.contains(#[trigger] gone[i])
        && gone[i] != newest by {
        lemma_pruned_at(sessions, newest, i);
        sessions.lemma_filter_contains_rev(other_than(newest), gone[i]);
        assert(gone.contains(gone[i]));
    }
    assert forall|i: int, j: int|
        0 <= i < gone.len() && 0 <= j < gone.len() && i != j implies gone[i] != gone[j] by {
        lemma_pruned_at(sessions, newest, i);
        lemma_pruned_at(sessions, newest, j);
    }
}

/// No session stays that is older than one that goes, but for the newest: of the names in a
/// directory that tell a time, one that does not go is no earlier in time and try than one that
/// does. Of those that tell no time, one that does not go is not before one that does by text.
pub proof fn law_nothing_older_stays(
    sessions: Seq<Seq<char>>,
    newest: Seq<char>,
    gone: int,
    left: int,
)
    requires
        sessions.no_duplicates(),
        0 <= gone < pruned(sessions, newest).len(),
        0 <= left < sessions.len(),
        sessions[left] != newest,
        !pruned(sessions, newest).contains(sessions[left]),
    ensures
        match (session_key(pruned(sessions, newest)[gone]), session_key(sessions[left])) {
            (Some((s, i)), Some((t, j))) => s < t || (s == t && i <= j),
            (None, None) => text::text_le(pruned(sessions, newest)[gone], sessions[left]),
            _ => true,
        },
{
    let name = sessions[left];
    let all = pruned(sessions, newest) + kept(sessions, newest);
    law_pruning_splits_the_sessions(sessions, newest);
    sessions.to_multiset_ensures();
    all.to_multiset_ensures();
    assert(sessions.contains(name));
    assert(all.to_multiset().count(name) > 0);
    assert(all.contains(name));
    let k = choose|k: int| 0 <= k < all.len() && all[k] == name;
    let n = pruned(sessions, newest).len() as int;
    if k < n {
        assert(pruned(sessions, newest)[k] == name);
    }
    assert(kept(sessions, newest)[k - n] == name);
    law_the_oldest_go_first(sessions, newest, gone, k - n);
}

/// Ten sessions are kept, and a hundred names are tried for a new one.
pub proof fn law_limits_of_sessions()
    ensures
        DEFAULT_MAX_SESSIONS == 10,
        MAX_ATTEMPTS == 100,
{
}

/// The other sessions are all but the newest, in the order of the sessions.
pub proof fn law_all_but_the_newest(
    sessions: Seq<Seq<char>>,
    newest: Seq<char>,
    name: Seq<char>,
)
    ensures
        others(Seq::empty(), newest).len() == 0,
        others(sessions.push(newest), newest) == others(sessions, newest),
        name != newest ==> others(sessions.push(name), newest) == others(sessions, newest).push(
            name,
        ),
        age_order()(name, newest) == age_le(name, newest),
        text::text_order()(name, newest) == text::text_le(name, newest),
{
    reveal(Seq::filter);
    lemma_filter_push(sessions, newest, other_than(newest));
    lemma_filter_push(sessions, name, other_than(newest));
}

} // verus!
