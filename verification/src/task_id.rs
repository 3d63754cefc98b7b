//! Stable identifiers for tasks registered with an executor.

use vstd::prelude::*;
use vstd::string::StringExecFns;

verus! {

/// The character that stands for the decimal digit `d` (`d < 10`).
pub open spec fn digit_char(d: nat) -> char {
    (48 + d) as char
}

/// Decimal rendering of `n`, most significant digit first, no leading zeros.
pub open spec fn decimal(n: nat) -> Seq<char>
    decreases n,
{
    if n < 10 {
        seq![digit_char(n)]
    } else {
        decimal(n / 10) + seq![digit_char(n % 10)]
    }
}

/// A decimal rendering is never empty.
pub proof fn lemma_decimal_len(n: nat)
    ensures
        decimal(n).len() >= 1,
        n < 10 <==> decimal(n).len() == 1,
    decreases n,
{
    if n >= 10 {
        lemma_decimal_len(n / 10);
    }
}

/// Distinct numbers have distinct decimal renderings.
pub proof fn lemma_decimal_injective(a: nat, b: nat)
    requires
        decimal(a) == decimal(b),
    ensures
        a == b,
    decreases a,
{
    lemma_decimal_len(a);
    lemma_decimal_len(b);
    if a < 10 {
        assert(decimal(a)[0] == digit_char(a));
        assert(decimal(b)[0] == digit_char(b));
    } else {
        let da = decimal(a);
        let db = decimal(b);
        assert(da.last() == digit_char(a % 10));
        assert(db.last() == digit_char(b % 10));
        assert(da.drop_last() =~= decimal(a / 10));
        assert(db.drop_last() =~= decimal(b / 10));
        lemma_decimal_injective(a / 10, b / 10);
    }
}

/// The one-character string for the digit `d`.
fn digit_str(d: u64) -> (s: &'static str)
    requires
        d < 10,
    ensures
        s@ == seq![digit_char(d as nat)],
{
    proof {
        reveal_strlit("0");
        reveal_strlit("1");
        reveal_strlit("2");
        reveal_strlit("3");
        reveal_strlit("4");
        reveal_strlit("5");
        reveal_strlit("6");
        reveal_strlit("7");
        reveal_strlit("8");
        reveal_strlit("9");
    }
    if d == 0 {
        "0"
    } else if d == 1 {
        "1"
    } else if d == 2 {
        "2"
    } else if d == 3 {
        "3"
    } else if d == 4 {
        "4"
    } else if d == 5 {
        "5"
    } else if d == 6 {
        "6"
    } else if d == 7 {
        "7"
    } else if d == 8 {
        "8"
    } else {
        "9"
    }
}

/// Appends the decimal rendering of `n` to `out`.
pub fn push_decimal(out: &mut String, n: u64)
    ensures
        final(out)@ == old(out)@ + decimal(n as nat),
    decreases n,
{
    if n < 10 {
        out.append(digit_str(n));
    } else {
        push_decimal(out, n / 10);
        out.append(digit_str(n % 10));
        assert(final(out)@ =~= old(out)@ + decimal(n as nat));
    }
}

/// Identifier for a task added to an executor. Shown in logs and used to
/// correlate observer and monitor callbacks.
#[derive(Debug)]
pub struct TaskId {
    id: String,
}

impl View for TaskId {
    type V = Seq<char>;

    closed spec fn view(&self) -> Seq<char> {
        self.id@
    }
}

impl TaskId {
    /// Construct a task identifier holding the characters of `s`.
    pub fn new(s: &str) -> (r: TaskId)
        ensures
            r@ == s@,
    {
        TaskId { id: String::from_str(s) }
    }

    /// Construct a task identifier that takes ownership of `s`.
    pub fn from_string(s: String) -> (r: TaskId)
        ensures
            r@ == s@,
    {
        TaskId { id: s }
    }

    /// Borrow the underlying string slice.
    pub fn as_str(&self) -> (r: &str)
        ensures
            r@ == self@,
    {
        self.id.as_str()
    }

    /// The textual rendering of the identifier: its characters, unchanged.
    pub fn to_string(&self) -> (r: String)
        ensures
            r@ == self@,
    {
        self.id.clone()
    }
}

impl Clone for TaskId {
    fn clone(&self) -> (r: Self)
        ensures
            r@ == self@,
    {
        TaskId { id: self.id.clone() }
    }
}

impl PartialEq for TaskId {
    fn eq(&self, other: &Self) -> (r: bool) {
        self.id == other.id
    }
}

impl vstd::std_specs::cmp::PartialEqSpecImpl for TaskId {
    open spec fn obeys_eq_spec() -> bool {
        true
    }

    open spec fn eq_spec(&self, other: &Self) -> bool {
        self@ == other@
    }
}

impl Eq for TaskId {}

impl From<&str> for TaskId {
    fn from(s: &str) -> (r: Self)
        ensures
            r@ == s@,
    {
        TaskId::new(s)
    }
}

impl From<String> for TaskId {
    fn from(s: String) -> (r: Self)
        ensures
            r@ == s@,
    {
        TaskId { id: s }
    }
}

impl vstd::std_specs::convert::FromSpecImpl<&str> for TaskId {
    open spec fn obeys_from_spec() -> bool {
        false
    }

    open spec fn from_spec(s: &str) -> TaskId {
        choose|t: TaskId| t@ == s@
    }
}

impl vstd::std_specs::convert::FromSpecImpl<String> for TaskId {
    open spec fn obeys_from_spec() -> bool {
        false
    }

    open spec fn from_spec(s: String) -> TaskId {
        choose|t: TaskId| t@ == s@
    }
}

impl vstd::std_specs::convert::FromSpecImpl<&String> for TaskId {
    open spec fn obeys_from_spec() -> bool {
        false
    }

    open spec fn from_spec(s: &String) -> TaskId {
        choose|t: TaskId| t@ == s@
    }
}

impl From<&String> for TaskId {
    fn from(s: &String) -> (r: Self)
        ensures
            r@ == s@,
    {
        TaskId { id: s.clone() }
    }
}

} // verus!
