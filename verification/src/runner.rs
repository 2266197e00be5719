//! The cooperative time-budget and outcome tracker. Every recursive search
//! call asks `check_continue` whether to go on; once an outcome is recorded,
//! or once the wall-clock budget is spent, the runner is terminal and every
//! pending frame unwinds without further work.

use vstd::prelude::*;
use vstd::string::StringExecFns;

verus! {

/// The reason string recorded when the time budget runs out.
pub open spec fn timeout_text() -> Seq<char> {
    "Exceeded time limit."@
}

/// A runner that has failed only ever failed for the one reason a runner can
/// record on its own: the time budget ran out.
pub open spec fn timeout_only(r: Runner) -> bool {
    r.failed() ==> (r.failure_message is Some && (r.failure_message->0)@ == timeout_text())
}

/// Tracks a start time, an optional wall-clock budget in milliseconds, and a
/// terminal outcome: unset, success, or failure with a reason.
pub struct Runner {
    pub time_limit: Option<u64>,
    pub success: Option<bool>,
    pub failure_message: Option<String>,
    pub start_time: std::time::Instant,
    pub time: Option<u64>,
}

impl Runner {
    /// Whether an outcome has been recorded; a terminal runner never resumes.
    pub open spec fn terminal(self) -> bool {
        self.success is Some
    }

    pub open spec fn failed(self) -> bool {
        self.success == Some(false)
    }

    /// A failed runner always carries a reason to hand to the caller.
    pub open spec fn wf(self) -> bool {
        self.failed() ==> self.failure_message is Some
    }

    /// A fresh, non-terminal runner with the given budget in milliseconds.
    pub fn new(time_limit: Option<u64>) -> (r: Runner)
        ensures
            r.time_limit == time_limit,
            r.success is None,
            r.failure_message is None,
            r.time is None,
            r.wf(),
    {
        Runner {
            time_limit,
            success: None,
            failure_message: None,
            start_time: std::time::Instant::now(),
            time: None,
        }
    }

    /// The sole cancellation primitive. Returns false once an outcome is
    /// recorded, or once the elapsed time reaches the budget, recording a
    /// timeout failure at that moment; a zero budget times out at once.
    pub fn check_continue(&mut self) -> (go: bool)
        requires
            old(self).wf(),
        ensures
            final(self).wf(),
            final(self).time_limit == old(self).time_limit,
            final(self).time == old(self).time,
            go ==> *final(self) == *old(self) && old(self).success is None,
            old(self).success is Some ==> !go && *final(self) == *old(self),
            !go && old(self).success is None ==> final(self).failed()
                && final(self).failure_message is Some && (final(self).failure_message->0)@
                == timeout_text(),
            old(self).success is None && old(self).time_limit is None ==> go,
            old(self).success is None && old(self).time_limit == Some(0u64) ==> !go,
            old(self).success == Some(true) ==> final(self).success == Some(true),
    {
        if self.success.is_some() {
            false
        } else {
            match self.time_limit {
                Some(limit) => {
                    let elapsed = self.start_time.elapsed();
                    let ms = elapsed.as_millis();
                    if ms >= limit as u128 {
                        self.success = Some(false);
                        self.failure_message = Some("Exceeded time limit.".to_owned());
                        false
                    } else {
                        true
                    }
                },
                None => true,
            }
        }
    }

    /// Records how many milliseconds the whole run took.
    pub fn mark_end(&mut self)
        requires
            old(self).wf(),
        ensures
            final(self).wf(),
            final(self).time is Some,
            final(self).success == old(self).success,
            final(self).failure_message == old(self).failure_message,
            final(self).time_limit == old(self).time_limit,
    {
        let elapsed = self.start_time.elapsed();
        let ms = elapsed.as_millis();
        self.time = Some(
            if ms > u64::MAX as u128 {
                u64::MAX
            } else {
                ms as u64
            },
        );
    }

    /// A copy of the recorded failure reason.
    pub fn failure_message_clone(&self) -> (m: String)
        requires
            self.failure_message is Some,
        ensures
            m@ == (self.failure_message->0)@,
    {
        match &self.failure_message {
            Some(m) => clone_string(m),
            None => String::new(),
        }
    }

    /// A short report of the recorded timings, for logs.
    pub fn times_as_string(&self) -> (s: String)
        ensures
            self.time is None ==> s@.len() == 0,
    {
        let mut s = String::new();
        if let Some(t) = self.time {
            s.append("time = ");
            let digits = u64_to_string(t);
            s.append(digits.as_str());
            s.append(" ms");
        }
        s
    }
}

/// A verified copy of a string.
pub fn clone_string(s: &String) -> (r: String)
    ensures
        r@ == s@,
{
    s.as_str().to_owned()
}

/// The decimal digits of `n`, most significant first.
pub open spec fn spec_decimal(n: int) -> Seq<char>
    decreases n,
{
    if n <= 0 {
        Seq::empty()
    } else {
        spec_decimal(n / 10).push(digit_char(n % 10))
    }
}

/// The character for one decimal digit.
pub open spec fn digit_char(d: int) -> char {
    if d == 0 {
        '0'
    } else if d == 1 {
        '1'
    } else if d == 2 {
        '2'
    } else if d == 3 {
        '3'
    } else if d == 4 {
        '4'
    } else if d == 5 {
        '5'
    } else if d == 6 {
        '6'
    } else if d == 7 {
        '7'
    } else if d == 8 {
        '8'
    } else {
        '9'
    }
}

/// Renders a number in decimal; zero becomes "0".
#[verifier::loop_isolation(false)]
pub fn u64_to_string(n: u64) -> (s: String)
    ensures
        n == 0 ==> s@ == seq!['0'],
        n > 0 ==> s@ == spec_decimal(n as int),
{
    if n == 0 {
        let s = "0".to_owned();
        proof {
            reveal_strlit("0");
            assert(s@ =~= seq!['0']);
        }
        return s;
    }
    let mut rest = n;
    let mut digits: Vec<char> = Vec::new();
    while rest > 0
        invariant
            0 <= rest <= n,
            spec_decimal(n as int) == spec_decimal(rest as int) + digits@.reverse(),
            forall|q: int| 0 <= q < digits@.len() ==> is_digit_char(#[trigger] digits@[q]),
        decreases rest,
    {
        let ghost pre = digits@;
        let ghost old_rest = rest as int;
        let d = (rest % 10) as u8;
        let c: char = match d {
            0 => '0',
            1 => '1',
            2 => '2',
            3 => '3',
            4 => '4',
            5 => '5',
            6 => '6',
            7 => '7',
            8 => '8',
            _ => '9',
        };
        digits.push(c);
        rest = rest / 10;
        proof {
            assert(digit_char(old_rest % 10) == c);
            assert(spec_decimal(old_rest) == spec_decimal(old_rest / 10).push(
                digit_char(old_rest % 10),
            ));
            assert(rest as int == old_rest / 10);
            assert(digits@.reverse() =~= seq![c] + pre.reverse());
            assert(spec_decimal(rest as int).push(c) + pre.reverse() =~= spec_decimal(rest as int)
                + (seq![c] + pre.reverse()));
            assert(spec_decimal(n as int) == spec_decimal(rest as int) + digits@.reverse());
        }
    }
    let mut s = String::new();
    let mut i = digits.len();
    while i > 0
        invariant
            i <= digits@.len(),
            s@ == digits@.subrange(i as int, digits@.len() as int).reverse(),
            forall|q: int| 0 <= q < digits@.len() ==> is_digit_char(#[trigger] digits@[q]),
        decreases i,
    {
        i = i - 1;
        let c = digits[i];
        s.append(digit_str(c));
        proof {
            assert(s@ =~= digits@.subrange(i as int, digits@.len() as int).reverse());
        }
    }
    proof {
        assert(digits@.subrange(0, digits@.len() as int) =~= digits@);
        assert(spec_decimal(0int) + digits@.reverse() =~= digits@.reverse());
    }
    s
}

/// Whether `c` is one of the ten decimal digit characters.
pub open spec fn is_digit_char(c: char) -> bool {
    c == '0' || c == '1' || c == '2' || c == '3' || c == '4' || c == '5' || c == '6' || c == '7'
        || c == '8' || c == '9'
}

/// The one-character string slice for a digit character.
fn digit_str(c: char) -> (p: &'static str)
    requires
        is_digit_char(c),
    ensures
        p@ == seq![c],
{
    proof {
        reveal_strlit("0");
        reveal_strlit("1");
        reveal_strlit("2");
        reveal_strlit("3");
        reveal_strlit("4");
        reveal_strlit("5");
        reveal_strlit("6");
        reveal_strlit("7");
        reveal_strlit("8");
        reveal_strlit("9");
    }
    let p: &'static str = match c {
        '0' => "0",
        '1' => "1",
        '2' => "2",
        '3' => "3",
        '4' => "4",
        '5' => "5",
        '6' => "6",
        '7' => "7",
        '8' => "8",
        _ => "9",
    };
    proof {
        assert(p@ =~= seq![c]);
    }
    p
}

} // verus!
