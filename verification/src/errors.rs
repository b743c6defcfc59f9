//! The native error kinds and the legacy `"Kind: message"` text encoding.
//!
//! Every error value the engine raises names one of seven kinds. The legacy
//! encoding writes the kind's name, a colon and a space, then the message;
//! `split_legacy` reads such a string back.
use vstd::prelude::*;
use vstd::string::*;

verus! {

/// The seven native error kinds, in prototype-table order.
#[derive(Clone, Copy, PartialEq, Eq, Debug, Structural)]
pub enum ErrorKind {
    Error,
    EvalError,
    RangeError,
    ReferenceError,
    SyntaxError,
    TypeError,
    UriError,
}

/// The name a kind is written with.
pub open spec fn kind_name(k: ErrorKind) -> Seq<char> {
    match k {
        ErrorKind::Error => "Error"@,
        ErrorKind::EvalError => "EvalError"@,
        ErrorKind::RangeError => "RangeError"@,
        ErrorKind::ReferenceError => "ReferenceError"@,
        ErrorKind::SyntaxError => "SyntaxError"@,
        ErrorKind::TypeError => "TypeError"@,
        ErrorKind::UriError => "URIError"@,
    }
}

/// The position of a kind in the error-prototype table.
pub open spec fn kind_index(k: ErrorKind) -> nat {
    match k {
        ErrorKind::Error => 0,
        ErrorKind::EvalError => 1,
        ErrorKind::RangeError => 2,
        ErrorKind::ReferenceError => 3,
        ErrorKind::SyntaxError => 4,
        ErrorKind::TypeError => 5,
        ErrorKind::UriError => 6,
    }
}

/// The kind whose name is exactly `s`, if any.
pub open spec fn kind_of_name(s: Seq<char>) -> Option<ErrorKind> {
    if s == kind_name(ErrorKind::Error) {
        Some(ErrorKind::Error)
    } else if s == kind_name(ErrorKind::EvalError) {
        Some(ErrorKind::EvalError)
    } else if s == kind_name(ErrorKind::RangeError) {
        Some(ErrorKind::RangeError)
    } else if s == kind_name(ErrorKind::ReferenceError) {
        Some(ErrorKind::ReferenceError)
    } else if s == kind_name(ErrorKind::SyntaxError) {
        Some(ErrorKind::SyntaxError)
    } else if s == kind_name(ErrorKind::TypeError) {
        Some(ErrorKind::TypeError)
    } else if s == kind_name(ErrorKind::UriError) {
        Some(ErrorKind::UriError)
    } else {
        None
    }
}

/// `": "` starts at position `p` of `s`.
pub open spec fn is_sep_at(s: Seq<char>, p: int) -> bool {
    0 <= p && p + 1 < s.len() && s[p] == ':' && s[p + 1] == ' '
}

/// `p` is the first position of `s` where `": "` starts.
pub open spec fn is_first_sep(s: Seq<char>, p: int) -> bool {
    is_sep_at(s, p) && forall|q: int| 0 <= q < p ==> !is_sep_at(s, q)
}

/// The position of the first `": "` in `s` (meaningful when there is one).
pub open spec fn first_sep(s: Seq<char>) -> int {
    choose|p: int| is_first_sep(s, p)
}

/// The kind named before the first `": "` of `s`, if that prefix names one.
pub open spec fn legacy_prefix_kind(s: Seq<char>) -> Option<ErrorKind> {
    if exists|p: int| is_first_sep(s, p) {
        kind_of_name(s.take(first_sep(s)))
    } else {
        None
    }
}

/// The (kind, message) pair a legacy error string stands for: the named kind
/// and the text after the first `": "`, or plain `Error` and the whole string
/// when the text before the first `": "` names no kind.
pub open spec fn split_legacy_spec(s: Seq<char>) -> (ErrorKind, Seq<char>) {
    match legacy_prefix_kind(s) {
        Some(k) => (k, s.skip(first_sep(s) + 2)),
        None => (ErrorKind::Error, s),
    }
}

/// The legacy encoding of an error of kind `k` with message `msg`.
pub open spec fn legacy_text(k: ErrorKind, msg: Seq<char>) -> Seq<char> {
    kind_name(k) + ": "@ + msg
}

proof fn lemma_kind_name_text(k: ErrorKind)
    ensures
        1 <= kind_name(k).len() <= 14,
        forall|i: int| 0 <= i < kind_name(k).len() ==> kind_name(k)[i] != ':',
{
    reveal_strlit("Error");
    reveal_strlit("EvalError");
    reveal_strlit("RangeError");
    reveal_strlit("ReferenceError");
    reveal_strlit("SyntaxError");
    reveal_strlit("TypeError");
    reveal_strlit("URIError");
}

proof fn lemma_long_names_no_kind(s: Seq<char>)
    requires
        s.len() > 14,
    ensures
        kind_of_name(s) is None,
{
    lemma_kind_name_text(ErrorKind::Error);
    lemma_kind_name_text(ErrorKind::EvalError);
    lemma_kind_name_text(ErrorKind::RangeError);
    lemma_kind_name_text(ErrorKind::ReferenceError);
    lemma_kind_name_text(ErrorKind::SyntaxError);
    lemma_kind_name_text(ErrorKind::TypeError);
    lemma_kind_name_text(ErrorKind::UriError);
}

proof fn lemma_first_sep_unique(s: Seq<char>, p: int)
    requires
        is_first_sep(s, p),
    ensures
        first_sep(s) == p,
{
    let q = first_sep(s);
    assert(is_first_sep(s, q));
    if q < p {
        assert(!is_sep_at(s, q));
    }
    if p < q {
        assert(!is_sep_at(s, p));
    }
}

/// Parsing the name of a kind gives that kind back.
pub proof fn law_parse_name(k: ErrorKind)
    ensures
        kind_of_name(kind_name(k)) == Some(k),
{
    reveal_strlit("Error");
    reveal_strlit("EvalError");
    reveal_strlit("RangeError");
    reveal_strlit("ReferenceError");
    reveal_strlit("SyntaxError");
    reveal_strlit("TypeError");
    reveal_strlit("URIError");
    assert("Error"@.len() == 5);
    assert("EvalError"@.len() == 9);
    assert("RangeError"@.len() == 10);
    assert("ReferenceError"@.len() == 14);
    assert("SyntaxError"@.len() == 11);
    assert("TypeError"@.len() == 9);
    assert("URIError"@.len() == 8);
    assert("EvalError"@[0] != "TypeError"@[0]);
}

/// Distinct kinds have distinct names and distinct prototype-table positions,
/// and every position lies below seven.
pub proof fn law_kinds_distinct(a: ErrorKind, b: ErrorKind)
    ensures
        kind_index(a) < 7,
        a != b ==> kind_index(a) != kind_index(b),
        a != b ==> kind_name(a) != kind_name(b),
{
    law_parse_name(a);
    law_parse_name(b);
}

/// Reading back the legacy encoding of kind `k` and message `msg` gives
/// `(k, msg)`, whatever the message holds.
pub proof fn law_split_legacy_roundtrip(k: ErrorKind, msg: Seq<char>)
    ensures
        legacy_prefix_kind(legacy_text(k, msg)) == Some(k),
        split_legacy_spec(legacy_text(k, msg)) == (k, msg),
{
    reveal_strlit(": ");
    let s = legacy_text(k, msg);
    let n = kind_name(k);
    lemma_kind_name_text(k);
    assert(s[n.len() as int] == ':');
    assert(s[n.len() + 1int] == ' ');
    assert forall|q: int| 0 <= q < n.len() implies !is_sep_at(s, q) by {
        assert(s[q] == n[q]);
    }
    assert(is_first_sep(s, n.len() as int));
    lemma_first_sep_unique(s, n.len() as int);
    assert(s.take(n.len() as int) =~= n);
    assert(s.skip(n.len() + 2int) =~= msg);
    law_parse_name(k);
}

/// Whether the two strings hold the same characters.
fn str_eq(a: &str, b: &str) -> (r: bool)
    ensures
        r == (a@ == b@),
{
    let n = a.unicode_len();
    let m = b.unicode_len();
    if n != m {
        return false;
    }
    let mut i: usize = 0;
    while i < n
        invariant
            n == a@.len(),
            m == b@.len(),
            n == m,
            i <= n,
            forall|j: int| 0 <= j < i ==> a@[j] == b@[j],
        decreases n - i,
    {
        if a.get_char(i) != b.get_char(i) {
            return false;
        }
        i = i + 1;
    }
    assert(a@ =~= b@);
    true
}

/// The first `": "` of `s` when it starts before position 64.
fn find_kind_separator(s: &str, n: usize) -> (r: Option<usize>)
    requires
        n == s@.len(),
    ensures
        match r {
            Some(p) => is_first_sep(s@, p as int) && p < 64,
            None => forall|q: int| 0 <= q < 64 ==> !is_sep_at(s@, q),
        },
{
    let mut i: usize = 0;
    while i + 1 < n && i < 64
        invariant
            n == s@.len(),
            i <= 64,
            forall|q: int| 0 <= q < i ==> !is_sep_at(s@, q),
        decreases 64 - i,
    {
        if s.get_char(i) == ':' && s.get_char(i + 1) == ' ' {
            return Some(i);
        }
        i = i + 1;
    }
    assert forall|q: int| 0 <= q < 64 implies !is_sep_at(s@, q) by {
        if q >= i {
            assert(q + 1 >= n);
        }
    }
    None
}

proof fn lemma_no_early_sep(s: Seq<char>)
    requires
        forall|q: int| 0 <= q < 64 ==> !is_sep_at(s, q),
    ensures
        legacy_prefix_kind(s) is None,
{
    if exists|p: int| is_first_sep(s, p) {
        let p = first_sep(s);
        assert(is_first_sep(s, p));
        assert(p >= 64);
        lemma_long_names_no_kind(s.take(p));
    }
}

impl ErrorKind {
    /// The name this kind is written with.
    pub fn name(self) -> (r: &'static str)
        ensures
            r@ == kind_name(self),
    {
        match self {
            ErrorKind::Error => "Error",
            ErrorKind::EvalError => "EvalError",
            ErrorKind::RangeError => "RangeError",
            ErrorKind::ReferenceError => "ReferenceError",
            ErrorKind::SyntaxError => "SyntaxError",
            ErrorKind::TypeError => "TypeError",
            ErrorKind::UriError => "URIError",
        }
    }

    /// The position of this kind in the error-prototype table.
    pub fn proto_index(self) -> (r: usize)
        ensures
            r == kind_index(self),
    {
        match self {
            ErrorKind::Error => 0,
            ErrorKind::EvalError => 1,
            ErrorKind::RangeError => 2,
            ErrorKind::ReferenceError => 3,
            ErrorKind::SyntaxError => 4,
            ErrorKind::TypeError => 5,
            ErrorKind::UriError => 6,
        }
    }

    /// The kind named exactly `s`; `None` for any other text.
    pub fn parse(s: &str) -> (r: Option<ErrorKind>)
        ensures
            r == kind_of_name(s@),
    {
        if str_eq(s, "Error") {
            Some(ErrorKind::Error)
        } else if str_eq(s, "EvalError") {
            Some(ErrorKind::EvalError)
        } else if str_eq(s, "RangeError") {
            Some(ErrorKind::RangeError)
        } else if str_eq(s, "ReferenceError") {
            Some(ErrorKind::ReferenceError)
        } else if str_eq(s, "SyntaxError") {
            Some(ErrorKind::SyntaxError)
        } else if str_eq(s, "TypeError") {
            Some(ErrorKind::TypeError)
        } else if str_eq(s, "URIError") {
            Some(ErrorKind::UriError)
        } else {
            None
        }
    }

    /// Split a legacy `"Kind: message"` string into its kind and message;
    /// text whose part before the first `": "` names no kind reads as a plain
    /// `Error` with the whole string as its message.
    pub fn split_legacy(msg: &str) -> (r: (ErrorKind, &str))
        ensures
            r.0 == split_legacy_spec(msg@).0,
            r.1@ == split_legacy_spec(msg@).1,
    {
        let n = msg.unicode_len();
        match find_kind_separator(msg, n) {
            Some(p) => {
                proof {
                    lemma_first_sep_unique(msg@, p as int);
                }
                let prefix = msg.substring_char(0, p);
                match ErrorKind::parse(prefix) {
                    Some(kind) => (kind, msg.substring_char(p + 2, n)),
                    None => (ErrorKind::Error, msg),
                }
            },
            None => {
                proof {
                    lemma_no_early_sep(msg@);
                }
                (ErrorKind::Error, msg)
            },
        }
    }
}

/// The kind a legacy error string carries before its first `": "`, if any.
pub fn legacy_kind_of_text(s: &str) -> (r: Option<ErrorKind>)
    ensures
        r == legacy_prefix_kind(s@),
{
    let n = s.unicode_len();
    match find_kind_separator(s, n) {
        Some(p) => {
            proof {
                lemma_first_sep_unique(s@, p as int);
            }
            ErrorKind::parse(s.substring_char(0, p))
        },
        None => {
            proof {
                lemma_no_early_sep(s@);
            }
            None
        },
    }
}

/// The legacy text encoding of an error: the kind's name, `": "`, then the
/// message.
pub fn error_string_text(kind: ErrorKind, msg: &str) -> (r: String)
    ensures
        r@ == legacy_text(kind, msg@),
{
    let mut out = String::from_str(kind.name());
    out.append(": ");
    out.append(msg);
    out
}

/// What `Error.prototype.toString` gives for the `name` and `message`
/// properties (`None` when undefined): the name defaults to `"Error"` and
/// the message to the empty string; an empty name gives the message, an
/// empty message the name, and otherwise they are joined by `": "`.
pub open spec fn error_display(name: Option<Seq<char>>, message: Option<Seq<char>>) -> Seq<char> {
    let n = match name {
        Some(t) => t,
        None => "Error"@,
    };
    let m = match message {
        Some(t) => t,
        None => Seq::empty(),
    };
    if n.len() == 0 {
        m
    } else if m.len() == 0 {
        n
    } else {
        n + ": "@ + m
    }
}

/// `Error.prototype.toString` on the `name` and `message` properties as
/// strings (`None` when undefined).
pub fn error_to_string_text(name: Option<&str>, message: Option<&str>) -> (r: String)
    ensures
        r@ == error_display(
            match name {
                Some(t) => Some(t@),
                None => None,
            },
            match message {
                Some(t) => Some(t@),
                None => None,
            },
        ),
{
    let n: &str = match name {
        Some(t) => t,
        None => "Error",
    };
    let m: &str = match message {
        Some(t) => t,
        None => "",
    };
    proof {
        reveal_strlit("Error");
        reveal_strlit("");
    }
    if n.unicode_len() == 0 {
        String::from_str(m)
    } else if m.unicode_len() == 0 {
        String::from_str(n)
    } else {
        let mut out = String::from_str(n);
        out.append(": ");
        out.append(m);
        out
    }
}

} // verus!
