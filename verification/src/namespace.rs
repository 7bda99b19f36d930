//! Namespaces: one namespace = one SQLite database and its binlog.

use crate::text::{chars_of, same_text};
use vstd::prelude::*;
use vstd::utf8::encode_utf8;

verus! {

/// The name of a namespace's database file.
pub const DB_FILE: &'static str = "db.sqlite";

// ---------------------------------------------------------------------------
// Names
// ---------------------------------------------------------------------------

/// A text as `{:?}` shows it.
pub uninterp spec fn debug_text(s: Seq<char>) -> Seq<char>;

/// A character as `{:?}` shows it.
pub uninterp spec fn debug_char(c: char) -> Seq<char>;

/// `format!("{:?}", ..)` of a text: it depends on the text alone.
#[verifier::external_body]
fn show_text(s: &str) -> (r: String)
    ensures
        r@ == debug_text(s@),
{
    format!("{s:?}")
}

/// `format!("{:?}", ..)` of a character: it depends on the character alone.
#[verifier::external_body]
fn show_char(c: char) -> (r: String)
    ensures
        r@ == debug_char(c),
{
    format!("{c:?}")
}

/// The stretches of `s` between slashes.
pub open spec fn segments(s: Seq<char>) -> Seq<Seq<char>>
    decreases s.len(),
{
    if s.len() == 0 {
        seq![seq![]]
    } else {
        let before = segments(s.drop_last());
        if s.last() == '/' {
            before.push(seq![])
        } else {
            before.update(before.len() - 1, before.last().push(s.last()))
        }
    }
}

/// A character that names are made of, besides the slash.
pub open spec fn is_name_char(c: char) -> bool {
    ||| 'a' <= c <= 'z'
    ||| 'A' <= c <= 'Z'
    ||| '0' <= c <= '9'
    ||| c == '-'
    ||| c == '_'
    ||| c == '.'
    ||| c == ':'
}

/// Why a text is no namespace's name.
#[derive(Debug, PartialEq, Eq)]
pub enum NamespaceError {
    Empty,
    TooLong,
    /// A stretch between slashes is empty or starts with a dot.
    Invalid,
    BadChar(char),
}

/// The first character that a stretch cannot have.
pub open spec fn bad_char(segment: Seq<char>) -> Option<char>
    decreases segment.len(),
{
    if segment.len() == 0 {
        None
    } else if !is_name_char(segment[0]) {
        Some(segment[0])
    } else {
        bad_char(segment.skip(1))
    }
}

pub open spec fn segment_fault(segment: Seq<char>) -> Option<NamespaceError> {
    if segment.len() == 0 || segment[0] == '.' {
        Some(NamespaceError::Invalid)
    } else {
        match bad_char(segment) {
            Some(c) => Some(NamespaceError::BadChar(c)),
            None => None,
        }
    }
}

pub open spec fn first_fault(segs: Seq<Seq<char>>) -> Option<NamespaceError>
    decreases segs.len(),
{
    if segs.len() == 0 {
        None
    } else {
        match segment_fault(segs[0]) {
            Some(e) => Some(e),
            None => first_fault(segs.skip(1)),
        }
    }
}

/// Why `name` is no namespace's name, if it is none: it is empty, longer than
/// 64 bytes, or the first of its stretches that is at fault is.
pub open spec fn name_fault(name: Seq<char>) -> Option<NamespaceError> {
    if name.len() == 0 {
        Some(NamespaceError::Empty)
    } else if encode_utf8(name).len() > 64 {
        Some(NamespaceError::TooLong)
    } else {
        first_fault(segments(name))
    }
}

/// What a client is told of a name that is none.
pub open spec fn fault_text(e: NamespaceError, name: Seq<char>) -> Seq<char> {
    match e {
        NamespaceError::Empty => "namespace name must not be empty"@,
        NamespaceError::TooLong => "namespace name too long"@,
        NamespaceError::Invalid => "invalid namespace name: "@ + debug_text(name),
        NamespaceError::BadChar(c) => "invalid character "@ + debug_char(c)
            + " in namespace name: "@ + debug_text(name),
    }
}

/// The words for a name that is none, given how it and the character at fault
/// are shown.
pub fn fault_message(e: &NamespaceError, shown_char: &str, shown_name: &str) -> (r: String)
    ensures
        r@ == (match e {
            NamespaceError::Empty => "namespace name must not be empty"@,
            NamespaceError::TooLong => "namespace name too long"@,
            NamespaceError::Invalid => "invalid namespace name: "@ + shown_name@,
            NamespaceError::BadChar(_) => "invalid character "@ + shown_char@
                + " in namespace name: "@ + shown_name@,
        }),
{
    match e {
        NamespaceError::Empty => "namespace name must not be empty".to_owned(),
        NamespaceError::TooLong => "namespace name too long".to_owned(),
        NamespaceError::Invalid => {
            let mut r = "invalid namespace name: ".to_owned();
            r.append(shown_name);
            r
        },
        NamespaceError::BadChar(_) => {
            let mut r = "invalid character ".to_owned();
            r.append(shown_char);
            r.append(" in namespace name: ");
            r.append(shown_name);
            r
        },
    }
}

impl NamespaceError {
    /// What a client is told of `name`.
    pub fn message(&self, name: &str) -> (r: String)
        ensures
            r@ == fault_text(*self, name@),
    {
        let shown_char = match self {
            NamespaceError::BadChar(c) => show_char(*c),
            _ => String::new(),
        };
        let shown_name = show_text(name);
        fault_message(self, shown_char.as_str(), shown_name.as_str())
    }
}

/// Validated namespace name. libsql-server-compatible charset: alphanumeric
/// plus `-`, `_`, `.`, `:` and `/` (nested namespaces map to nested
/// directories). `..` and leading dots are rejected.
#[derive(Debug, PartialEq, Eq, Hash)]
pub struct NamespaceName(String);

impl View for NamespaceName {
    type V = Seq<char>;

    closed spec fn view(&self) -> Seq<char> {
        self.0@
    }
}

spec fn char_lists(v: Seq<Vec<char>>) -> Seq<Seq<char>> {
    v.map_values(|x: Vec<char>| x@)
}

fn split_segments(chars: &Vec<char>) -> (r: Vec<Vec<char>>)
    ensures
        char_lists(r@) == segments(chars@),
{
    let mut done: Vec<Vec<char>> = Vec::new();
    let mut current: Vec<char> = Vec::new();
    let mut i: usize = 0;
    assert(chars@.take(0) =~= seq![]);
    assert(char_lists(done@).push(current@) =~= segments(chars@.take(0)));
    while i < chars.len()
        invariant
            i <= chars@.len(),
            char_lists(done@).push(current@) == segments(chars@.take(i as int)),
        decreases chars@.len() - i,
    {
        let ghost before = segments(chars@.take(i as int));
        assert(chars@.take(i + 1).drop_last() =~= chars@.take(i as int));
        assert(before.last() == current@);
        if chars[i] == '/' {
            done.push(current);
            current = Vec::new();
            assert(char_lists(done@) =~= before);
            assert(char_lists(done@).push(current@) =~= segments(chars@.take(i + 1)));
        } else {
            current.push(chars[i]);
            assert(char_lists(done@).push(current@) =~= segments(chars@.take(i + 1)));
        }
        i = i + 1;
    }
    assert(chars@.take(i as int) =~= chars@);
    let ghost list = char_lists(done@);
    done.push(current);
    assert(char_lists(done@) =~= list.push(current@));
    done
}

fn check_segment(segment: &Vec<char>) -> (r: Option<NamespaceError>)
    ensures
        r == segment_fault(segment@),
{
    if segment.len() == 0 || segment[0] == '.' {
        return Some(NamespaceError::Invalid);
    }
    let mut i: usize = 0;
    assert(segment@.skip(0) =~= segment@);
    while i < segment.len()
        invariant
            i <= segment@.len(),
            segment@.len() > 0 && segment@[0] != '.',
            bad_char(segment@.skip(i as int)) == bad_char(segment@),
        decreases segment@.len() - i,
    {
        let c: char = segment[i];
        assert(segment@.skip(i as int).skip(1) =~= segment@.skip(i + 1));
        if !((c >= 'a' && c <= 'z') || (c >= 'A' && c <= 'Z') || (c >= '0' && c <= '9') || c == '-'
            || c == '_' || c == '.' || c == ':') {
            return Some(NamespaceError::BadChar(c));
        }
        i = i + 1;
    }
    None
}

impl NamespaceName {
    /// The name is one.
    pub closed spec fn wf(&self) -> bool {
        name_fault(self@) is None
    }

    pub fn from_string(name: String) -> (r: Result<Self, NamespaceError>)
        ensures
            match name_fault(name@) {
                Some(e) => r == Err::<NamespaceName, _>(e),
                None => r matches Ok(n) && n@ == name@ && n.wf(),
            },
    {
        let chars = chars_of(name.as_str());
        if chars.len() == 0 {
            return Err(NamespaceError::Empty);
        }
        if name.as_str().as_bytes().len() > 64 {
            return Err(NamespaceError::TooLong);
        }
        let parts = split_segments(&chars);
        let ghost segs = segments(name@);
        let mut i: usize = 0;
        assert(segs.skip(0) =~= segs);
        while i < parts.len()
            invariant
                i <= parts@.len(),
                char_lists(parts@) == segs,
                segs == segments(name@),
                name@.len() > 0,
                encode_utf8(name@).len() <= 64,
                first_fault(segs.skip(i as int)) == first_fault(segs),
            decreases parts@.len() - i,
        {
            assert(segs.skip(i as int)[0] == parts@[i as int]@);
            assert(segs.skip(i as int).skip(1) =~= segs.skip(i + 1));
            if let Some(e) = check_segment(&parts[i]) {
                return Err(e);
            }
            i = i + 1;
        }
        Ok(NamespaceName(name))
    }

    pub fn as_str(&self) -> (r: &str)
        ensures
            r@ == self@,
    {
        self.0.as_str()
    }

    /// Whether two names are the same.
    pub fn same(&self, other: &NamespaceName) -> (r: bool)
        ensures
            r == (self@ == other@),
    {
        same_text(self.0.as_str(), other.0.as_str())
    }
}

impl Clone for NamespaceName {
    fn clone(&self) -> (r: Self)
        ensures
            r@ == self@,
    {
        NamespaceName(self.0.clone())
    }
}

impl Default for NamespaceName {
    fn default() -> (r: Self)
        ensures
            r@ == "default"@,
            r.wf(),
    {
        proof {
            default_name_is_valid();
        }
        NamespaceName("default".to_owned())
    }
}

proof fn no_bad_char(segment: Seq<char>)
    requires
        bad_char(segment) is None,
    ensures
        forall|i: int| 0 <= i < segment.len() ==> is_name_char(#[trigger] segment[i]),
    decreases segment.len(),
{
    if segment.len() > 0 {
        no_bad_char(segment.skip(1));
        assert forall|i: int| 0 <= i < segment.len() implies is_name_char(
            #[trigger] segment[i],
        ) by {
            if i > 0 {
                assert(segment.skip(1)[i - 1] == segment[i]);
            }
        }
    }
}

proof fn no_fault(segs: Seq<Seq<char>>, i: int)
    requires
        first_fault(segs) is None,
        0 <= i < segs.len(),
    ensures
        segment_fault(segs[i]) is None,
    decreases segs.len(),
{
    if i > 0 {
        no_fault(segs.skip(1), i - 1);
    }
}

/// A valid name stays below the directory that namespaces live in: no stretch
/// of it is empty, leads upwards or is hidden, and it holds no other
/// character than those that names are made of.
pub proof fn valid_name_stays_below(name: Seq<char>, i: int)
    requires
        name_fault(name) is None,
        0 <= i < segments(name).len(),
    ensures
        segments(name)[i].len() > 0,
        segments(name)[i][0] != '.',
        segments(name)[i] != ".."@,
        forall|k: int|
            0 <= k < segments(name)[i].len() ==> is_name_char(#[trigger] segments(name)[i][k]),
{
    no_fault(segments(name), i);
    no_bad_char(segments(name)[i]);
    reveal_strlit("..");
}

proof fn one_segment(s: Seq<char>)
    requires
        forall|i: int| 0 <= i < s.len() ==> s[i] != '/',
    ensures
        segments(s) == seq![s],
    decreases s.len(),
{
    if s.len() > 0 {
        one_segment(s.drop_last());
        assert(s.drop_last().push(s.last()) =~= s);
        assert(segments(s) =~= seq![s]);
    } else {
        assert(s =~= seq![]);
        assert(segments(s) =~= seq![s]);
    }
}

proof fn all_name_chars(s: Seq<char>)
    requires
        forall|i: int| 0 <= i < s.len() ==> is_name_char(#[trigger] s[i]),
    ensures
        bad_char(s) is None,
        encode_utf8(s).len() == s.len(),
    decreases s.len(),
{
    if s.len() > 0 {
        let rest = s.skip(1);
        assert(rest =~= s.drop_first());
        assert(is_name_char(s[0]));
        assert forall|i: int| 0 <= i < rest.len() implies is_name_char(#[trigger] rest[i]) by {
            assert(rest[i] == s[i + 1]);
        }
        all_name_chars(rest);
    }
}

/// The default name is a valid one.
pub proof fn default_name_is_valid()
    ensures
        name_fault("default"@) is None,
{
    reveal_strlit("default");
    let s = "default"@;
    one_segment(s);
    all_name_chars(s);
    assert(segments(s)[0] == s);
    assert(segments(s).skip(1).len() == 0);
    assert(first_fault(segments(s).skip(1)) is None);
    assert(segment_fault(s) is None);
}

/// A character that names may hold besides the slash between their stretches.
pub open spec fn is_allowed(c: char) -> bool {
    ('a' <= c <= 'z') || ('A' <= c <= 'Z') || ('0' <= c <= '9') || c == '-' || c == '_' || c == '.'
        || c == ':'
}

/// Whether the characters of a name are fine, each at its place: none that is
/// not allowed, and behind a slash, as at the start, neither a slash nor a dot.
pub open spec fn is_fine(name: Seq<char>) -> bool {
    forall|i: int|
        0 <= i < name.len() ==> (is_allowed(#[trigger] name[i]) || name[i] == '/') && (i == 0
            || name[i - 1] == '/' ==> name[i] != '/' && name[i] != '.')
}

/// Whether a stretch that is still open is fine so far.
spec fn almost(segment: Seq<char>) -> bool {
    bad_char(segment) is None && (segment.len() > 0 ==> segment[0] != '.')
}

spec fn all_whole(segs: Seq<Seq<char>>) -> bool {
    forall|j: int| 0 <= j < segs.len() ==> segment_fault(#[trigger] segs[j]) is None
}

proof fn no_fault_is_whole(segs: Seq<Seq<char>>)
    ensures
        first_fault(segs) is None <==> all_whole(segs),
    decreases segs.len(),
{
    if segs.len() > 0 {
        let rest = segs.skip(1);
        no_fault_is_whole(rest);
        if all_whole(segs) {
            assert(segment_fault(segs[0]) is None);
            assert forall|j: int| 0 <= j < rest.len() implies segment_fault(#[trigger] rest[j])
                is None by {
                assert(rest[j] == segs[j + 1]);
            }
        }
        if first_fault(segs) is None {
            assert forall|j: int| 0 <= j < segs.len() implies segment_fault(#[trigger] segs[j])
                is None by {
                if j > 0 {
                    assert(rest[j - 1] == segs[j]);
                }
            }
        }
    }
}

proof fn bad_char_behind(segment: Seq<char>, c: char)
    ensures
        bad_char(segment.push(c)) is None <==> bad_char(segment) is None && is_name_char(c),
    decreases segment.len(),
{
    let s = segment.push(c);
    if segment.len() > 0 {
        bad_char_behind(segment.skip(1), c);
        assert(s.skip(1) =~= segment.skip(1).push(c));
        assert(s[0] == segment[0]);
    } else {
        assert(s.skip(1) =~= Seq::<char>::empty());
        assert(bad_char(s.skip(1)) is None);
    }
}

proof fn stretches_are_fine(name: Seq<char>)
    ensures
        segments(name).len() > 0,
        (all_whole(segments(name).drop_last()) && almost(segments(name).last())) <==> is_fine(name),
        segments(name).last().len() == 0 <==> name.len() == 0 || name.last() == '/',
    decreases name.len(),
{
    let segs = segments(name);
    if name.len() == 0 {
        assert(segs.drop_last() =~= Seq::<Seq<char>>::empty());
    } else {
        let before = name.drop_last();
        let c = name.last();
        let n = before.len() as int;
        let old = segments(before);
        stretches_are_fine(before);
        assert(is_fine(name) <==> is_fine(before) && (is_allowed(c) || c == '/') && (n == 0
            || before.last() == '/' ==> c != '/' && c != '.')) by {
            if is_fine(name) {
                assert(is_allowed(name[n]) || name[n] == '/');
                assert forall|i: int| 0 <= i < n implies (is_allowed(#[trigger] before[i])
                    || before[i] == '/') && (i == 0 || before[i - 1] == '/' ==> before[i] != '/'
                    && before[i] != '.') by {
                    assert(before[i] == name[i]);
                    if i > 0 {
                        assert(before[i - 1] == name[i - 1]);
                    }
                }
            }
            if is_fine(before) && (is_allowed(c) || c == '/') && (n == 0 || before.last() == '/'
                ==> c != '/' && c != '.') {
                assert forall|i: int| 0 <= i < name.len() implies (is_allowed(#[trigger] name[i])
                    || name[i] == '/') && (i == 0 || name[i - 1] == '/' ==> name[i] != '/'
                    && name[i] != '.') by {
                    if i < n {
                        assert(before[i] == name[i]);
                        if i > 0 {
                            assert(before[i - 1] == name[i - 1]);
                        }
                    }
                }
            }
        }
        if c == '/' {
            assert(segs.drop_last() =~= old);
            assert(segs.last() =~= Seq::<char>::empty());
            assert(almost(segs.last()));
            assert(all_whole(old) <==> all_whole(old.drop_last()) && segment_fault(old.last())
                is None) by {
                whole_behind(old);
            }
        } else {
            assert(segs.drop_last() =~= old.drop_last());
            assert(segs.last() == old.last().push(c));
            bad_char_behind(old.last(), c);
            if old.last().len() > 0 {
                assert(segs.last()[0] == old.last()[0]);
            }
        }
    }
}

proof fn whole_behind(segs: Seq<Seq<char>>)
    requires
        segs.len() > 0,
    ensures
        all_whole(segs) <==> all_whole(segs.drop_last()) && segment_fault(segs.last()) is None,
{
    let before = segs.drop_last();
    if all_whole(segs) {
        assert(segment_fault(segs[segs.len() - 1]) is None);
        assert forall|j: int| 0 <= j < before.len() implies segment_fault(#[trigger] before[j])
            is None by {
            assert(before[j] == segs[j]);
        }
    }
    if all_whole(before) && segment_fault(segs.last()) is None {
        assert forall|j: int| 0 <= j < segs.len() implies segment_fault(#[trigger] segs[j])
            is None by {
            if j < before.len() {
                assert(before[j] == segs[j]);
            }
        }
    }
}

/// A text is a namespace's name exactly where it has one to 64 bytes, all of its
/// characters are fine, and it does not end with a slash.
pub proof fn names_are_valid_where_they_are_fine(name: Seq<char>)
    ensures
        name_fault(name) is None <==> name.len() > 0 && encode_utf8(name).len() <= 64 && is_fine(
            name,
        ) && name.last() != '/',
        name.len() == 0 <==> name_fault(name) == Some(NamespaceError::Empty),
        name.len() > 0 && encode_utf8(name).len() > 64 <==> name_fault(name) == Some(
            NamespaceError::TooLong,
        ),
{
    stretches_are_fine(name);
    no_fault_is_whole(segments(name));
    whole_behind(segments(name));
    faults_are_of_stretches(segments(name));
}

proof fn faults_are_of_stretches(segs: Seq<Seq<char>>)
    ensures
        first_fault(segs) matches Some(e) ==> e is Invalid || e is BadChar,
    decreases segs.len(),
{
    if segs.len() > 0 {
        faults_are_of_stretches(segs.skip(1));
    }
}

// ---------------------------------------------------------------------------
// The namespaces of a server
// ---------------------------------------------------------------------------

/// The namespaces that are open, by name.
pub struct NamespaceManager<N> {
    /// No name is listed twice.
    entries: Vec<(NamespaceName, N)>,
}

/// What is known of a namespace.
pub enum Lookup<'a, N> {
    /// It is open.
    Open(&'a N),
    /// It is not open, and its database is there: it is to be opened.
    OnDisk,
    /// There is no such namespace.
    Missing,
}

spec fn namespaces_of<N>(entries: Seq<(NamespaceName, N)>) -> Map<Seq<char>, N>
    decreases entries.len(),
{
    if entries.len() == 0 {
        Map::empty()
    } else {
        namespaces_of(entries.drop_last()).insert(entries.last().0@, entries.last().1)
    }
}

spec fn named_once<N>(entries: Seq<(NamespaceName, N)>) -> bool {
    forall|i: int, j: int|
        0 <= i < j < entries.len() ==> (#[trigger] entries[i]).0@ != (#[trigger] entries[j]).0@
}

proof fn namespaces_hold<N>(entries: Seq<(NamespaceName, N)>)
    requires
        named_once(entries),
    ensures
        forall|i: int|
            0 <= i < entries.len() ==> namespaces_of(entries).contains_key(
                (#[trigger] entries[i]).0@,
            ) && namespaces_of(entries)[entries[i].0@] == entries[i].1,
        forall|t: Seq<char>|
            namespaces_of(entries).contains_key(t) ==> exists|i: int|
                0 <= i < entries.len() && (#[trigger] entries[i]).0@ == t,
    decreases entries.len(),
{
    if entries.len() > 0 {
        let before = entries.drop_last();
        namespaces_hold(before);
        assert forall|i: int| 0 <= i < entries.len() implies namespaces_of(entries).contains_key(
            (#[trigger] entries[i]).0@,
        ) && namespaces_of(entries)[entries[i].0@] == entries[i].1 by {
            if i < before.len() {
                assert(before[i] == entries[i]);
                assert(entries[i].0@ != entries[entries.len() - 1].0@);
            }
        }
        assert forall|t: Seq<char>| namespaces_of(entries).contains_key(t) implies exists|i: int|
            0 <= i < entries.len() && (#[trigger] entries[i]).0@ == t by {
            if t == entries.last().0@ {
                assert(entries[entries.len() - 1].0@ == t);
            } else {
                assert(namespaces_of(before).contains_key(t));
                let i = choose|i: int| 0 <= i < before.len() && (#[trigger] before[i]).0@ == t;
                assert(before[i].0@ == t && before[i] == entries[i]);
            }
        }
    }
}

/// The open namespaces with another one; one of the same name is replaced.
pub open spec fn with_namespace<N>(open: Map<Seq<char>, N>, name: Seq<char>, namespace: N) -> Map<
    Seq<char>,
    N,
> {
    open.insert(name, namespace)
}

/// The open namespaces without one.
pub open spec fn without_namespace<N>(open: Map<Seq<char>, N>, name: Seq<char>) -> Map<
    Seq<char>,
    N,
> {
    open.remove(name)
}

impl<N> View for NamespaceManager<N> {
    type V = Map<Seq<char>, N>;

    closed spec fn view(&self) -> Map<Seq<char>, N> {
        namespaces_of(self.entries@)
    }
}

impl<N> NamespaceManager<N> {
    pub closed spec fn wf(&self) -> bool {
        named_once(self.entries@)
    }

    pub fn new() -> (r: Self)
        ensures
            r.wf(),
            r@ == Map::<Seq<char>, N>::empty(),
    {
        NamespaceManager { entries: Vec::new() }
    }

    fn position(&self, name: &NamespaceName) -> (r: Option<usize>)
        requires
            self.wf(),
        ensures
            match r {
                Some(i) => i < self.entries@.len() && self.entries@[i as int].0@ == name@
                    && self@.contains_key(name@) && self@[name@] == self.entries@[i as int].1,
                None => !self@.contains_key(name@) && forall|i: int|
                    0 <= i < self.entries@.len() ==> (#[trigger] self.entries@[i]).0@ != name@,
            },
    {
        let mut i: usize = 0;
        while i < self.entries.len()
            invariant
                i <= self.entries@.len(),
                self.wf(),
                forall|k: int| 0 <= k < i ==> (#[trigger] self.entries@[k]).0@ != name@,
            decreases self.entries@.len() - i,
        {
            if self.entries[i].0.same(name) {
                proof {
                    namespaces_hold(self.entries@);
                }
                return Some(i);
            }
            i = i + 1;
        }
        proof {
            namespaces_hold(self.entries@);
        }
        None
    }

    /// What is known of a namespace; `on_disk` tells whether its database file
    /// is there.
    pub fn get(&self, name: &NamespaceName, on_disk: bool) -> (r: Lookup<'_, N>)
        requires
            self.wf(),
        ensures
            self@.contains_key(name@) ==> r == Lookup::Open(&self@[name@]),
            !self@.contains_key(name@) ==> r == (if on_disk {
                Lookup::<N>::OnDisk
            } else {
                Lookup::<N>::Missing
            }),
    {
        match self.position(name) {
            Some(i) => Lookup::Open(&self.entries[i].1),
            None => if on_disk {
                Lookup::OnDisk
            } else {
                Lookup::Missing
            },
        }
    }

    /// A namespace was opened.
    pub fn insert(&mut self, name: NamespaceName, namespace: N)
        requires
            old(self).wf(),
        ensures
            final(self).wf(),
            final(self)@ == with_namespace(old(self)@, name@, namespace),
    {
        self.forget(&name);
        let ghost before = self.entries@;
        self.entries.push((name, namespace));
        assert(self.entries@.drop_last() =~= before);
        assert(self@ =~= old(self)@.insert(name@, namespace));
    }

    /// Deletes a namespace: it is forgotten, and the caller removes its
    /// directory where the result says that it existed. `on_disk` tells whether
    /// its database file is there.
    pub fn delete(&mut self, name: &NamespaceName, on_disk: bool) -> (r: bool)
        requires
            old(self).wf(),
        ensures
            final(self).wf(),
            final(self)@ == without_namespace(old(self)@, name@),
            r == (old(self)@.contains_key(name@) || on_disk),
    {
        self.forget(name) || on_disk
    }

    /// Takes a namespace off the list; tells whether it was open.
    fn forget(&mut self, name: &NamespaceName) -> (r: bool)
        requires
            old(self).wf(),
        ensures
            final(self).wf(),
            final(self)@ == old(self)@.remove(name@),
            r == old(self)@.contains_key(name@),
            final(self).unlisted(name@),
    {
        match self.position(name) {
            Some(i) => {
                let ghost before = self.entries@;
                self.entries.remove(i);
                proof {
                    assert(self.entries@ =~= before.remove(i as int));
                    assert(named_once(self.entries@)) by {
                        assert forall|a: int, b: int| 0 <= a < b < self.entries@.len() implies (
                        #[trigger] self.entries@[a]).0@ != (#[trigger] self.entries@[b]).0@ by {
                            let x = if a < i {
                                a
                            } else {
                                a + 1
                            };
                            let y = if b < i {
                                b
                            } else {
                                b + 1
                            };
                            assert(before[x].0@ != before[y].0@);
                        }
                    }
                    assert(self.unlisted(name@)) by {
                        assert forall|k: int| 0 <= k < self.entries@.len() implies (
                        #[trigger] self.entries@[k]).0@ != name@ by {
                            let x = if k < i {
                                k
                            } else {
                                k + 1
                            };
                            assert(self.entries@[k] == before[x]);
                            if k < i {
                                assert(before[x].0@ != before[i as int].0@);
                            } else {
                                assert(before[i as int].0@ != before[x].0@);
                            }
                        }
                    }
                    removed_namespace(before, i as int);
                }
                true
            },
            None => {
                assert(self@.remove(name@) =~= self@);
                false
            },
        }
    }

    /// No entry has that name.
    pub closed spec fn unlisted(&self, name: Seq<char>) -> bool {
        forall|k: int| 0 <= k < self.entries@.len() ==> (#[trigger] self.entries@[k]).0@ != name
    }
}

proof fn removed_namespace<N>(entries: Seq<(NamespaceName, N)>, i: int)
    requires
        named_once(entries),
        0 <= i < entries.len(),
    ensures
        namespaces_of(entries.remove(i)) == namespaces_of(entries).remove(entries[i].0@),
    decreases entries.len(),
{
    let last = entries.len() - 1;
    let name = entries[i].0@;
    if i == last {
        assert(entries.remove(i) =~= entries.drop_last());
        namespaces_hold(entries.drop_last());
        assert(!namespaces_of(entries.drop_last()).contains_key(name)) by {
            if namespaces_of(entries.drop_last()).contains_key(name) {
                let k = choose|k: int|
                    0 <= k < entries.drop_last().len() && (
                    #[trigger] entries.drop_last()[k]).0@ == name;
                assert(entries[k].0@ != entries[last].0@);
            }
        }
        assert(namespaces_of(entries.remove(i)) =~= namespaces_of(entries).remove(name));
    } else {
        assert(entries.remove(i).drop_last() =~= entries.drop_last().remove(i));
        removed_namespace(entries.drop_last(), i);
        assert(entries[i].0@ != entries[last].0@);
        assert(namespaces_of(entries.remove(i)) =~= namespaces_of(entries).remove(name));
    }
}

/// Whether an entry of the data directory is a namespace: a directory with a
/// namespace's name that holds a database.
pub open spec fn is_namespace(name: Seq<char>, is_dir: bool, has_db: bool) -> bool {
    is_dir && has_db && name_fault(name) is None
}

/// The name of a namespace that a server's directory holds: an entry that is a
/// directory, has a valid name and a database file in it.
pub fn existing_namespace(name: String, is_dir: bool, has_db: bool) -> (r: Option<NamespaceName>)
    ensures
        match r {
            Some(n) => is_namespace(name@, is_dir, has_db) && n@ == name@ && n.wf(),
            None => !is_namespace(name@, is_dir, has_db),
        },
{
    if !is_dir {
        return None;
    }
    match NamespaceName::from_string(name) {
        Ok(n) => if has_db {
            Some(n)
        } else {
            None
        },
        Err(_) => None,
    }
}

} // verus!
