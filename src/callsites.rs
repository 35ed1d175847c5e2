//! Reading call targets, guard allocations and jump labels out of the text of
//! compiled instructions, and classifying call targets.
use vstd::prelude::*;

verus! {

/// The text that group `group` of the first match of `pattern` in `text`
/// spans: none when the pattern is not valid, nothing matches, or the group
/// takes no part in the match.
pub uninterp spec fn regex_capture(pattern: Seq<char>, text: Seq<char>, group: nat) -> Option<Seq<char>>;

/// For each of the successive non-overlapping matches of `pattern` in
/// `text`, the text that group `group` spans in it, or none when the group
/// takes no part in that match.
pub uninterp spec fn regex_match_groups(pattern: Seq<char>, text: Seq<char>, group: nat) -> Seq<Option<Seq<char>>>;

/// The demangled form of a symbol name.
pub uninterp spec fn demangled(name: Seq<char>) -> Seq<char>;

/// Whether a character is alphabetic or numeric.
pub uninterp spec fn alphanumeric(c: char) -> bool;

/// Relies on `regex::Regex::new` and `regex::Regex::captures`: compiles
/// `pattern` and gives what group `group` of its first match in `text` spans.
#[verifier::external_body]
fn first_capture(pattern: &str, text: &str, group: usize) -> (r: Option<String>)
    ensures
        r.is_some() == regex_capture(pattern@, text@, group as nat).is_some(),
        r.is_some() ==> r->0@ == regex_capture(pattern@, text@, group as nat)->0,
{
    let re = regex::Regex::new(pattern).ok()?;
    re.captures(text)?.get(group).map(|m| m.as_str().to_string())
}

/// The view of an optional text.
pub open spec fn opt_view(o: Option<String>) -> Option<Seq<char>> {
    match o {
        Some(s) => Some(s@),
        None => None,
    }
}

/// Relies on `regex::Regex::new` and `regex::Regex::captures_iter`: compiles
/// `pattern` and gives, for each of its matches in `text`, what group
/// `group` spans in it; no match at all when the pattern is not valid.
#[verifier::external_body]
fn match_groups(pattern: &str, text: &str, group: usize) -> (r: Vec<Option<String>>)
    ensures
        r@.map_values(|o: Option<String>| opt_view(o)) == regex_match_groups(pattern@, text@, group as nat),
{
    match regex::Regex::new(pattern) {
        Ok(re) => re.captures_iter(text).map(|c| c.get(group).map(|m| m.as_str().to_string())).collect(),
        Err(_) => Vec::new(),
    }
}

/// The texts present in `s`, in order.
pub open spec fn present(s: Seq<Option<Seq<char>>>) -> Seq<Seq<char>>
    decreases s.len(),
{
    if s.len() == 0 {
        Seq::empty()
    } else {
        match s.last() {
            Some(t) => present(s.drop_last()).push(t),
            None => present(s.drop_last()),
        }
    }
}

/// A character that can stand in a label name.
pub open spec fn label_char(c: char) -> bool {
    ('a' <= c && c <= 'z') || ('A' <= c && c <= 'Z') || ('0' <= c && c <= '9') || c == '_' || c == '.' || c == '$'
}

/// `p` occurs in `s` at `at`, and is not followed by a label character.
pub open spec fn occurs_whole_at(s: Seq<char>, p: Seq<char>, at: int) -> bool {
    occurs_at(s, p, at) && (at + p.len() == s.len() || !label_char(s[at + p.len()]))
}

/// Relies on `rustc_demangle::demangle`, written out with `Display`: the
/// demangled form of `name`, or `name` itself when it is not mangled.
#[verifier::external_body]
fn demangle(name: &str) -> (r: String)
    ensures
        r@ == demangled(name@),
{
    rustc_demangle::demangle(name).to_string()
}

/// Relies on `char::is_alphanumeric`.
#[verifier::external_body]
fn is_alphanumeric(c: char) -> (r: bool)
    ensures
        r == alphanumeric(c),
{
    c.is_alphanumeric()
}

/// A call or invoke instruction: group 2 is the callee's name.
pub const CALL_PATTERN: &'static str = r"(call|invoke) [^@]+@([^(\s]+)";

/// An alloca instruction: group 2 is the allocated type.
pub const ALLOCA_PATTERN: &'static str = r"(alloca (.*?),)";

/// A jump target: group 1 is the label's name.
pub const LABEL_PATTERN: &'static str = r"label %([a-zA-Z0-9_]+)";

/// Demangled prefix of `std::sync::Mutex::lock`.
pub const MUTEX_LOCK: &'static str = "std::sync::mutex::Mutex<T>::lock";

/// Demangled prefix of `std::sync::Mutex::new`.
pub const MUTEX_NEW: &'static str = "std::sync::mutex::Mutex<T>::new";

/// Demangled prefix of the drop of a mutex guard.
pub const MUTEX_GUARD_DROP: &'static str = "core::ptr::drop_in_place<std::sync::mutex::MutexGuard<i32>>::";

/// The type text of an allocated mutex guard.
pub const MUTEX_GUARD_TYPE: &'static str = "core::result::Result<std::sync::mutex::MutexGuard";

/// `s` without its leading characters that are not alphanumeric.
pub open spec fn strip_front(s: Seq<char>) -> Seq<char>
    decreases s.len(),
{
    if s.len() > 0 && !alphanumeric(s[0]) {
        strip_front(s.drop_first())
    } else {
        s
    }
}

/// `s` without its trailing characters that are not alphanumeric.
pub open spec fn strip_back(s: Seq<char>) -> Seq<char>
    decreases s.len(),
{
    if s.len() > 0 && !alphanumeric(s.last()) {
        strip_back(s.drop_last())
    } else {
        s
    }
}

/// `s` without the characters that are not alphanumeric at either end.
pub open spec fn trimmed(s: Seq<char>) -> Seq<char> {
    strip_back(strip_front(s))
}

/// `p` occurs in `s` at `at`.
pub open spec fn occurs_at(s: Seq<char>, p: Seq<char>, at: int) -> bool {
    0 <= at && at + p.len() <= s.len() && s.subrange(at, at + p.len()) == p
}

/// `p` occurs somewhere in `s`.
pub open spec fn occurs_in(s: Seq<char>, p: Seq<char>) -> bool {
    exists|at: int| occurs_at(s, p, at)
}

/// The characters of `s`.
fn chars_of(s: &str) -> (r: Vec<char>)
    ensures
        r@ == s@,
{
    let n = s.unicode_len();
    let mut r: Vec<char> = Vec::new();
    let mut i: usize = 0;
    while i < n
        invariant
            n == s@.len(),
            i <= n,
            r@ == s@.subrange(0, i as int),
        decreases n - i,
    {
        r.push(s.get_char(i));
        proof {
            assert(s@.subrange(0, i + 1) =~= s@.subrange(0, i as int).push(s@[i as int]));
        }
        i = i + 1;
    }
    proof {
        assert(s@.subrange(0, n as int) =~= s@);
    }
    r
}

/// Whether `p` occurs in `s` at `at`.
fn matches_at(s: &Vec<char>, p: &Vec<char>, at: usize) -> (r: bool)
    ensures
        r == occurs_at(s@, p@, at as int),
{
    if at > s.len() || p.len() > s.len() - at {
        return false;
    }
    let len = s.len();
    let mut j: usize = 0;
    while j < p.len()
        invariant
            len == s@.len(),
            at + p@.len() <= s@.len(),
            j <= p@.len(),
            forall|k: int| 0 <= k < j ==> s@[at + k] == p@[k],
        decreases p@.len() - j,
    {
        assert(at + j < s@.len());
        if s[at + j] != p[j] {
            proof {
                assert(s@.subrange(at as int, at + p@.len())[j as int] != p@[j as int]);
            }
            return false;
        }
        j = j + 1;
    }
    proof {
        assert(s@.subrange(at as int, at + p@.len()) =~= p@);
    }
    true
}

/// Whether `c` can stand in a label name.
fn is_label_char(c: char) -> (r: bool)
    ensures
        r == label_char(c),
{
    ('a' <= c && c <= 'z') || ('A' <= c && c <= 'Z') || ('0' <= c && c <= '9') || c == '_' || c == '.' || c == '$'
}

/// Whether `s` starts with `prefix`.
pub fn starts_with(s: &str, prefix: &str) -> (r: bool)
    ensures
        r == occurs_at(s@, prefix@, 0),
{
    let sc = chars_of(s);
    let pc = chars_of(prefix);
    matches_at(&sc, &pc, 0)
}

/// Whether `part` occurs in `s`.
pub fn contains_text(s: &str, part: &str) -> (r: bool)
    ensures
        r == occurs_in(s@, part@),
{
    let sc = chars_of(s);
    let pc = chars_of(part);
    let mut at: usize = 0;
    while at < sc.len()
        invariant
            sc@ == s@,
            pc@ == part@,
            at <= sc@.len(),
            forall|k: int| 0 <= k < at ==> !occurs_at(s@, part@, k),
        decreases sc@.len() - at,
    {
        if matches_at(&sc, &pc, at) {
            return true;
        }
        at = at + 1;
    }
    if matches_at(&sc, &pc, at) {
        return true;
    }
    proof {
        assert forall|k: int| !occurs_at(s@, part@, k) by {
            if k > at {
                assert(k + part@.len() > s@.len());
            }
        }
    }
    false
}

/// `s` without the characters that are not alphanumeric at either end.
pub fn trim_non_alphanumeric(s: &str) -> (r: String)
    ensures
        r@ == trimmed(s@),
{
    let chars = chars_of(s);
    let n = chars.len();
    let mut lo: usize = 0;
    proof {
        assert(s@.subrange(0, n as int) =~= s@);
    }
    while lo < n && !is_alphanumeric(chars[lo])
        invariant
            chars@ == s@,
            n == s@.len(),
            lo <= n,
            strip_front(s@) == strip_front(s@.subrange(lo as int, n as int)),
        decreases n - lo,
    {
        proof {
            assert(s@.subrange(lo as int, n as int).drop_first() =~= s@.subrange(lo + 1, n as int));
        }
        lo = lo + 1;
    }
    proof {
        assert(strip_front(s@.subrange(lo as int, n as int)) == s@.subrange(lo as int, n as int));
    }
    let mut hi: usize = n;
    while hi > lo && !is_alphanumeric(chars[hi - 1])
        invariant
            chars@ == s@,
            n == s@.len(),
            lo <= hi <= n,
            trimmed(s@) == strip_back(s@.subrange(lo as int, hi as int)),
        decreases hi - lo,
    {
        proof {
            assert(s@.subrange(lo as int, hi as int).drop_last() =~= s@.subrange(lo as int, hi - 1));
        }
        hi = hi - 1;
    }
    proof {
        assert(strip_back(s@.subrange(lo as int, hi as int)) == s@.subrange(lo as int, hi as int));
    }
    let part = s.substring_char(lo, hi);
    String::from_str(part)
}

/// Text that could not be read.
#[derive(Debug, Clone, Copy, PartialEq, Eq)]
pub enum NameError {
    /// No call target in the text of a call instruction.
    NoCallTarget,
    /// No type in the text of an alloca instruction, or not the type asked for.
    NoAllocaType,
}

/// Reading call targets.
pub struct InstructionCallSites;

impl InstructionCallSites {
    /// The name that a call or invoke instruction calls, from the
    /// instruction's text, with the non-alphanumeric characters at either end
    /// (quotes) removed.
    pub fn called_function_name_from_str(instr_str: &str) -> (r: Result<String, NameError>)
        ensures
            match r {
                Ok(name) => regex_capture(CALL_PATTERN@, instr_str@, 2) is Some
                    && name@ == trimmed(regex_capture(CALL_PATTERN@, instr_str@, 2)->0),
                Err(e) => regex_capture(CALL_PATTERN@, instr_str@, 2) is None && e == NameError::NoCallTarget,
            },
    {
        match first_capture(CALL_PATTERN, instr_str, 2) {
            Some(name) => Ok(trim_non_alphanumeric(name.as_str())),
            None => Err(NameError::NoCallTarget),
        }
    }

    /// The demangled name that a call or invoke instruction calls, from the
    /// instruction's text.
    pub fn demangled_called_function_name(instr_str: &str) -> (r: Result<String, NameError>)
        ensures
            match r {
                Ok(name) => regex_capture(CALL_PATTERN@, instr_str@, 2) is Some
                    && name@ == demangled(trimmed(regex_capture(CALL_PATTERN@, instr_str@, 2)->0)),
                Err(e) => regex_capture(CALL_PATTERN@, instr_str@, 2) is None && e == NameError::NoCallTarget,
            },
    {
        match Self::called_function_name_from_str(instr_str) {
            Ok(name) => Ok(demangle(name.as_str())),
            Err(e) => Err(e),
        }
    }
}

/// The kinds of call site that the analysis knows.
#[derive(Debug, Clone, Copy, PartialEq, Eq, Structural)]
pub enum KnownCallsites {
    StdSyncMutexLock,
    StdSyncMutexNew,
    StdSyncMutexDrop,
    Unknown,
}

/// The kind of the call site whose demangled callee is `name`.
pub open spec fn classify(name: Seq<char>) -> KnownCallsites {
    if occurs_at(name, MUTEX_LOCK@, 0) {
        KnownCallsites::StdSyncMutexLock
    } else if occurs_at(name, MUTEX_NEW@, 0) {
        KnownCallsites::StdSyncMutexNew
    } else if occurs_at(name, MUTEX_GUARD_DROP@, 0) {
        KnownCallsites::StdSyncMutexDrop
    } else {
        KnownCallsites::Unknown
    }
}

/// The kind of the call site whose instruction text is `instr`.
pub open spec fn classify_instr(instr: Seq<char>) -> KnownCallsites {
    match regex_capture(CALL_PATTERN@, instr, 2) {
        Some(target) => classify(demangled(trimmed(target))),
        None => KnownCallsites::Unknown,
    }
}

impl KnownCallsites {
    /// Whether a demangled callee is `Mutex::lock`.
    pub fn is_std_sync_mutex_lock_call(call_str: &str) -> (r: bool)
        ensures
            r == occurs_at(call_str@, MUTEX_LOCK@, 0),
    {
        starts_with(call_str, MUTEX_LOCK)
    }

    /// Whether a demangled callee is `Mutex::new`.
    pub fn is_std_sync_mutex_new_call(call_str: &str) -> (r: bool)
        ensures
            r == occurs_at(call_str@, MUTEX_NEW@, 0),
    {
        starts_with(call_str, MUTEX_NEW)
    }

    /// Whether a demangled callee drops a mutex guard.
    pub fn is_std_sync_mutex_drop(call_str: &str) -> (r: bool)
        ensures
            r == occurs_at(call_str@, MUTEX_GUARD_DROP@, 0),
    {
        starts_with(call_str, MUTEX_GUARD_DROP)
    }

    /// The kind of a call site from its demangled callee.
    pub fn from_demangled(call_str: &str) -> (r: KnownCallsites)
        ensures
            r == classify(call_str@),
    {
        if Self::is_std_sync_mutex_lock_call(call_str) {
            KnownCallsites::StdSyncMutexLock
        } else if Self::is_std_sync_mutex_new_call(call_str) {
            KnownCallsites::StdSyncMutexNew
        } else if Self::is_std_sync_mutex_drop(call_str) {
            KnownCallsites::StdSyncMutexDrop
        } else {
            KnownCallsites::Unknown
        }
    }

    /// Whether the call whose instruction text is `instr_str` is a call of
    /// `Mutex::lock`.
    pub fn is_std_sync_mutex_lock_call_site(instr_str: &str) -> (r: Result<bool, NameError>)
        ensures
            match r {
                Ok(b) => regex_capture(CALL_PATTERN@, instr_str@, 2) is Some
                    && b == (classify_instr(instr_str@) == KnownCallsites::StdSyncMutexLock),
                Err(e) => regex_capture(CALL_PATTERN@, instr_str@, 2) is None && e == NameError::NoCallTarget,
            },
    {
        let name = InstructionCallSites::demangled_called_function_name(instr_str)?;
        Ok(Self::is_std_sync_mutex_lock_call(name.as_str()))
    }

    /// Whether the call whose instruction text is `instr_str` is a call of
    /// `Mutex::new`.
    pub fn is_std_sync_mutex_new_call_site(instr_str: &str) -> (r: Result<bool, NameError>)
        ensures
            match r {
                Ok(b) => regex_capture(CALL_PATTERN@, instr_str@, 2) is Some
                    && b == occurs_at(demangled(trimmed(regex_capture(CALL_PATTERN@, instr_str@, 2)->0)), MUTEX_NEW@, 0),
                Err(e) => regex_capture(CALL_PATTERN@, instr_str@, 2) is None && e == NameError::NoCallTarget,
            },
    {
        let name = InstructionCallSites::demangled_called_function_name(instr_str)?;
        Ok(Self::is_std_sync_mutex_new_call(name.as_str()))
    }

    /// Whether the call whose instruction text is `instr_str` drops a mutex
    /// guard.
    pub fn is_std_sync_mutex_drop_call_site(instr_str: &str) -> (r: Result<bool, NameError>)
        ensures
            match r {
                Ok(b) => regex_capture(CALL_PATTERN@, instr_str@, 2) is Some
                    && b == occurs_at(demangled(trimmed(regex_capture(CALL_PATTERN@, instr_str@, 2)->0)), MUTEX_GUARD_DROP@, 0),
                Err(e) => regex_capture(CALL_PATTERN@, instr_str@, 2) is None && e == NameError::NoCallTarget,
            },
    {
        let name = InstructionCallSites::demangled_called_function_name(instr_str)?;
        Ok(Self::is_std_sync_mutex_drop(name.as_str()))
    }

    /// The kind of a call site from its instruction text; an error when no
    /// callee can be read from it.
    pub fn try_from_instr(instr_str: &str) -> (r: Result<KnownCallsites, NameError>)
        ensures
            match r {
                Ok(kind) => regex_capture(CALL_PATTERN@, instr_str@, 2) is Some && kind == classify_instr(instr_str@),
                Err(e) => regex_capture(CALL_PATTERN@, instr_str@, 2) is None && e == NameError::NoCallTarget,
            },
    {
        let name = InstructionCallSites::demangled_called_function_name(instr_str)?;
        Ok(Self::from_demangled(name.as_str()))
    }

    /// The kind of a call site from its instruction text; `Unknown` when no
    /// callee can be read from it.
    pub fn from_instr(instr_str: &str) -> (r: KnownCallsites)
        ensures
            r == classify_instr(instr_str@),
    {
        match Self::try_from_instr(instr_str) {
            Ok(kind) => kind,
            Err(_) => KnownCallsites::Unknown,
        }
    }
}

/// Reading alloca instructions.
pub struct Alloca;

impl Alloca {
    /// The type that an alloca instruction allocates, from its text, with
    /// the non-alphanumeric characters at either end removed.
    pub fn get_type_from_alloca_str(instr_str: &str) -> (r: Result<String, NameError>)
        ensures
            match r {
                Ok(ty) => regex_capture(ALLOCA_PATTERN@, instr_str@, 2) is Some
                    && ty@ == trimmed(regex_capture(ALLOCA_PATTERN@, instr_str@, 2)->0),
                Err(e) => regex_capture(ALLOCA_PATTERN@, instr_str@, 2) is None && e == NameError::NoAllocaType,
            },
    {
        match first_capture(ALLOCA_PATTERN, instr_str, 2) {
            Some(ty) => Ok(trim_non_alphanumeric(ty.as_str())),
            None => Err(NameError::NoAllocaType),
        }
    }
}

/// The kinds of allocation that the analysis knows.
#[derive(Debug, Clone, Copy, PartialEq, Eq, Structural)]
pub enum KnowAlloca {
    MutexGuard,
    Unknown,
}

/// The alloca instruction with text `instr` allocates the result of a mutex lock.
pub open spec fn guard_alloca(instr: Seq<char>) -> bool {
    match regex_capture(ALLOCA_PATTERN@, instr, 2) {
        Some(ty) => occurs_in(trimmed(ty), MUTEX_GUARD_TYPE@),
        None => false,
    }
}

impl KnowAlloca {
    /// Whether an allocated type text is the result of a mutex lock.
    pub fn is_mutex_guard_type(type_str: &str) -> (r: bool)
        ensures
            r == occurs_in(type_str@, MUTEX_GUARD_TYPE@),
    {
        contains_text(type_str, MUTEX_GUARD_TYPE)
    }

    /// Whether the alloca instruction whose text is `instr_str` allocates
    /// the result of a mutex lock; false when no type can be read from it.
    pub fn is_mutex_guard(instr_str: &str) -> (r: bool)
        ensures
            r == guard_alloca(instr_str@),
    {
        match Alloca::get_type_from_alloca_str(instr_str) {
            Ok(ty) => Self::is_mutex_guard_type(ty.as_str()),
            Err(_) => false,
        }
    }

    /// `MutexGuard` for the allocation of a lock result; an error for any
    /// other instruction text.
    pub fn try_from_instr(instr_str: &str) -> (r: Result<KnowAlloca, NameError>)
        ensures
            match r {
                Ok(kind) => guard_alloca(instr_str@) && kind == KnowAlloca::MutexGuard,
                Err(e) => !guard_alloca(instr_str@) && e == NameError::NoAllocaType,
            },
    {
        if Self::is_mutex_guard(instr_str) {
            Ok(KnowAlloca::MutexGuard)
        } else {
            Err(NameError::NoAllocaType)
        }
    }

    /// The kind of an allocation from its instruction text.
    pub fn from_instr(instr_str: &str) -> (r: KnowAlloca)
        ensures
            r == (if guard_alloca(instr_str@) { KnowAlloca::MutexGuard } else { KnowAlloca::Unknown }),
    {
        match Self::try_from_instr(instr_str) {
            Ok(kind) => kind,
            Err(_) => KnowAlloca::Unknown,
        }
    }
}

/// Reading the control-flow predecessors of instructions.
pub struct Predecessors;

impl Predecessors {
    /// The labels that a block's text jumps to, in order.
    pub fn get_jump_labels(block_str: &str) -> (r: Vec<String>)
        ensures
            r@.map_values(|s: String| s@) == present(regex_match_groups(LABEL_PATTERN@, block_str@, 1)),
    {
        let groups = match_groups(LABEL_PATTERN, block_str, 1);
        let ghost views = groups@.map_values(|o: Option<String>| opt_view(o));
        let mut r: Vec<String> = Vec::new();
        let mut i: usize = 0;
        while i < groups.len()
            invariant
                i <= groups@.len(),
                views == groups@.map_values(|o: Option<String>| opt_view(o)),
                r@.map_values(|s: String| s@) == present(views.subrange(0, i as int)),
            decreases groups@.len() - i,
        {
            proof {
                assert(views.subrange(0, i + 1).drop_last() =~= views.subrange(0, i as int));
                assert(views.subrange(0, i + 1).last() == opt_view(groups@[i as int]));
            }
            match &groups[i] {
                Some(label) => {
                    r.push(label.clone());
                    proof {
                        assert(r@.map_values(|s: String| s@) =~= present(views.subrange(0, i as int)).push(label@));
                    }
                },
                None => {},
            }
            i = i + 1;
        }
        proof {
            assert(views.subrange(0, i as int) =~= views);
        }
        r
    }

    /// Whether an instruction's text jumps to the block named `block_name`:
    /// `label %` and the name occur in it, and no further label character
    /// follows, so that `bb10` does not count as `bb1`.
    pub fn jumps_to(instr_str: &str, block_name: &str) -> (r: bool)
        ensures
            r == exists|at: int| occurs_whole_at(instr_str@, "label %"@ + block_name@, at),
    {
        let pattern = String::from_str("label %").concat(block_name);
        let sc = chars_of(instr_str);
        let pc = chars_of(pattern.as_str());
        let ghost p = "label %"@ + block_name@;
        let mut at: usize = 0;
        while at < sc.len()
            invariant
                at <= sc@.len(),
                sc@ == instr_str@,
                p == "label %"@ + block_name@,
                pc@ == p,
                forall|k: int| 0 <= k < at ==> !occurs_whole_at(instr_str@, p, k),
            decreases sc@.len() - at,
        {
            if matches_at(&sc, &pc, at) {
                let end = at + pc.len();
                if end == sc.len() || !is_label_char(sc[end]) {
                    assert(occurs_whole_at(instr_str@, p, at as int));
                    return true;
                }
            }
            at = at + 1;
        }
        if matches_at(&sc, &pc, at) {
            assert(occurs_whole_at(instr_str@, p, at as int));
            return true;
        }
        proof {
            assert forall|k: int| !occurs_whole_at(instr_str@, p, k) by {
                if k > at {
                    assert(k + p.len() > instr_str@.len());
                }
            }
        }
        false
    }
}

} // verus!
