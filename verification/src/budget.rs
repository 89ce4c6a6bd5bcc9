//! Measured memory budget.
//!
//! Caps are derived and not picked: from how much memory is available right now,
//! minus a reserve, divided by the per-unit cost of whatever is about to be
//! allocated. Asking the operating system is the caller's part; what follows from
//! the readings, and what the readings' text says, is decided here.
//!
//! Where nothing can be measured a deliberately small figure is used: a budget that
//! is too small refuses work, one that is too large gets the process killed.

use crate::interchange::escapes::lemma_decimal;
use crate::text::{
    chars_of, decimal, digit, find, find_from,
    has_at, is_at, is_whitespace, parse_whole, push_decimal, slice_of, trim_range, trim_start,
    trimmed, whitespace, whole_number,
};
use vstd::prelude::*;

pub mod cost;

verus! {

/// Where the numbers in a [`Budget`] came from.
#[derive(Clone, Copy, Debug, PartialEq, Eq, Structural)]
pub enum Source {
    /// Read from the operating system.
    Measured,
    /// The user pinned it with `FERRIX_MEM_BUDGET_MB`.
    Override,
    /// The platform could not be asked; [`FALLBACK_AVAILABLE`] is in use.
    Fallback,
}

impl Source {
    pub open spec fn label_spec(self) -> Seq<char> {
        match self {
            Source::Measured => "measured"@,
            Source::Override => "FERRIX_MEM_BUDGET_MB"@,
            Source::Fallback => "unmeasured — conservative default"@,
        }
    }

    pub fn label(self) -> (s: &'static str)
        ensures
            s@ == self.label_spec(),
    {
        match self {
            Source::Measured => "measured",
            Source::Override => "FERRIX_MEM_BUDGET_MB",
            Source::Fallback => "unmeasured — conservative default",
        }
    }
}

/// Assumed available memory when the platform cannot be asked: 512 MB.
pub const FALLBACK_AVAILABLE: u64 = 0x2000_0000;

/// This much is always left for everything else that is running: 512 MB.
pub const RESERVE_BYTES: u64 = 0x2000_0000;

/// A single operation may claim one part in this many of what remains.
pub const CLAIM_FRACTION: u64 = 2;

/// The floor on any derived cap, in bytes: 16 MB.
pub const MIN_CLAIM: u64 = 0x100_0000;

/// How long a cached sample stays fresh.
pub const CACHE_MILLIS: u64 = 1000;

/// A memory measurement plus the caps derived from it.
#[derive(Clone, Copy, Debug, PartialEq, Eq, Structural)]
pub struct Budget {
    /// Physical memory installed. 0 when unknown.
    pub total: u64,
    /// What the operating system says it could hand out right now.
    pub available: u64,
    pub source: Source,
}

pub open spec fn capped(n: int) -> u64 {
    if n > u64::MAX {
        u64::MAX
    } else {
        n as u64
    }
}

impl Budget {
    /// What the readings come to: the user's figure before the measured one, and
    /// the small fixed one where there is neither.
    pub open spec fn of_readings(
        override_mb: Option<u64>,
        available: Option<u64>,
        total: Option<u64>,
    ) -> Budget {
        let known = match total {
            Some(t) => t,
            None => 0,
        };
        match (override_mb, available) {
            (Some(mb), _) => Budget {
                total: known,
                available: capped(mb * 0x10_0000),
                source: Source::Override,
            },
            (None, Some(a)) => Budget { total: known, available: a, source: Source::Measured },
            (None, None) => Budget {
                total: 0,
                available: FALLBACK_AVAILABLE,
                source: Source::Fallback,
            },
        }
    }

    /// Make a budget of what was read.
    pub fn from_readings(
        override_mb: Option<u64>,
        available: Option<u64>,
        total: Option<u64>,
    ) -> (b: Budget)
        ensures
            b == Budget::of_readings(override_mb, available, total),
    {
        let known: u64 = match total {
            Some(t) => t,
            None => 0,
        };
        match override_mb {
            Some(mb) => {
                let bytes: u64 = match mb.checked_mul(0x10_0000) {
                    Some(n) => n,
                    None => u64::MAX,
                };
                Budget { total: known, available: bytes, source: Source::Override }
            },
            None => match available {
                Some(a) => Budget { total: known, available: a, source: Source::Measured },
                None => Budget {
                    total: 0,
                    available: FALLBACK_AVAILABLE,
                    source: Source::Fallback,
                },
            },
        }
    }

    /// Construct a budget directly.
    pub fn from_available(available: u64) -> (b: Budget)
        ensures
            b == (Budget { total: 0, available, source: Source::Measured }),
    {
        Budget { total: 0, available, source: Source::Measured }
    }

    pub open spec fn claim(self) -> u64 {
        let usable = if self.available > RESERVE_BYTES {
            (self.available - RESERVE_BYTES) as u64
        } else {
            0
        };
        if usable / CLAIM_FRACTION > MIN_CLAIM {
            usable / CLAIM_FRACTION
        } else {
            MIN_CLAIM
        }
    }

    /// The most a single operation may allocate, in bytes: what is available minus
    /// the reserve, halved, and never less than [`MIN_CLAIM`].
    pub fn claim_bytes(&self) -> (n: u64)
        ensures
            n == self.claim(),
    {
        let usable: u64 = self.available.saturating_sub(RESERVE_BYTES);
        let part: u64 = usable / CLAIM_FRACTION;
        if part > MIN_CLAIM {
            part
        } else {
            MIN_CLAIM
        }
    }

    pub open spec fn units(self, bytes_each: u64) -> u64 {
        self.claim() / if bytes_each == 0 {
            1
        } else {
            bytes_each
        }
    }

    /// How many units of `bytes_each` fit inside the claim. A cost of 0 is treated
    /// as 1, so that a unit estimated as free is no licence for any number.
    pub fn max_units(&self, bytes_each: u64) -> (n: u64)
        ensures
            n == self.units(bytes_each),
    {
        let each: u64 = if bytes_each == 0 {
            1
        } else {
            bytes_each
        };
        self.claim_bytes() / each
    }

    /// The same, capped to what can index.
    pub fn max_units_usize(&self, bytes_each: u64) -> (n: usize)
        ensures
            n == if self.units(bytes_each) > usize::MAX {
                usize::MAX as int
            } else {
                self.units(bytes_each) as int
            },
    {
        let n: u64 = self.max_units(bytes_each);
        if n > usize::MAX as u64 {
            usize::MAX
        } else {
            n as usize
        }
    }

    pub open spec fn refusal(self, bytes: u64, what: Seq<char>) -> Seq<char> {
        what + " needs "@ + shown(bytes) + " but only "@ + shown(self.claim())
            + " is safely available ("@ + shown(self.available) + " of "@ + if self.total > 0 {
            shown(self.total)
        } else {
            "unknown"@
        } + " free, "@ + self.source.label_spec()
            + "). Reduce the selection or close something."@
    }

    /// Would allocating `bytes` for `what` fit? `Err` carries a message that can be
    /// shown verbatim.
    pub fn admits(&self, bytes: u64, what: &str) -> (r: Result<(), String>)
        ensures
            match r {
                Ok(_) => bytes <= self.claim(),
                Err(s) => bytes > self.claim() && s@ == self.refusal(bytes, what@),
            },
    {
        let claim: u64 = self.claim_bytes();
        if bytes <= claim {
            return Ok(());
        }
        let mut s = what.to_owned();
        s.push_str(" needs ");
        push_bytes(&mut s, bytes);
        s.push_str(" but only ");
        push_bytes(&mut s, claim);
        s.push_str(" is safely available (");
        push_bytes(&mut s, self.available);
        s.push_str(" of ");
        if self.total > 0 {
            push_bytes(&mut s, self.total);
        } else {
            s.push_str("unknown");
        }
        s.push_str(" free, ");
        s.push_str(self.source.label());
        s.push_str("). Reduce the selection or close something.");
        Err(s)
    }

    /// True when the measurement is real rather than a fallback guess.
    pub fn is_measured(&self) -> (b: bool)
        ensures
            b == (self.source != Source::Fallback),
    {
        match self.source {
            Source::Measured => true,
            Source::Override => true,
            Source::Fallback => false,
        }
    }

    pub open spec fn description(self) -> Seq<char> {
        if self.total > 0 {
            shown(self.available) + " of "@ + shown(self.total) + " RAM available · "@ + shown(
                self.claim(),
            ) + " budget ("@ + self.source.label_spec() + ")"@
        } else {
            shown(self.available) + " available · "@ + shown(self.claim()) + " budget ("@
                + self.source.label_spec() + ")"@
        }
    }

    /// One line for the status bar.
    pub fn describe(&self) -> (s: String)
        ensures
            s@ == self.description(),
    {
        let mut s = fmt_bytes(self.available);
        if self.total > 0 {
            s.push_str(" of ");
            push_bytes(&mut s, self.total);
            s.push_str(" RAM available · ");
        } else {
            s.push_str(" available · ");
        }
        push_bytes(&mut s, self.claim_bytes());
        s.push_str(" budget (");
        s.push_str(self.source.label());
        s.push_str(")");
        s
    }
}

// ------------------------------------------------------------------ sizes --

/// `n / d` to the nearest whole number, a tie to the even one.
pub open spec fn nearest(n: int, d: int) -> int {
    let q = n / d;
    let r = n % d;
    if 2 * r > d || (2 * r == d && q % 2 == 1) {
        q + 1
    } else {
        q
    }
}

/// A byte count with at most 53 significant bits, the nearest one.
pub open spec fn rounded(b: u64) -> int {
    if b < 0x20_0000_0000_0000 {
        b as int
    } else if b < 0x40_0000_0000_0000 {
        nearest(b as int, 2) * 2
    } else if b < 0x80_0000_0000_0000 {
        nearest(b as int, 4) * 4
    } else if b < 0x100_0000_0000_0000 {
        nearest(b as int, 8) * 8
    } else if b < 0x200_0000_0000_0000 {
        nearest(b as int, 16) * 16
    } else if b < 0x400_0000_0000_0000 {
        nearest(b as int, 32) * 32
    } else if b < 0x800_0000_0000_0000 {
        nearest(b as int, 64) * 64
    } else if b < 0x1000_0000_0000_0000 {
        nearest(b as int, 128) * 128
    } else if b < 0x2000_0000_0000_0000 {
        nearest(b as int, 256) * 256
    } else if b < 0x4000_0000_0000_0000 {
        nearest(b as int, 512) * 512
    } else if b < 0x8000_0000_0000_0000 {
        nearest(b as int, 1024) * 1024
    } else {
        nearest(b as int, 2048) * 2048
    }
}

/// A byte count as it is shown: whole bytes and kilobytes, megabytes with one
/// decimal and gigabytes with two.
pub open spec fn shown(b: u64) -> Seq<char> {
    if b < 1024 {
        decimal(b as nat) + " B"@
    } else if b < 0x10_0000 {
        decimal(nearest(b as int, 1024) as nat) + " KB"@
    } else if b < 0x4000_0000 {
        let t = nearest(b * 10, 0x10_0000);
        decimal((t / 10) as nat) + "."@ + decimal((t % 10) as nat) + " MB"@
    } else {
        let t = nearest(rounded(b) * 100, 0x4000_0000);
        decimal((t / 100) as nat) + "."@ + decimal((t / 10 % 10) as nat) + decimal((t % 10) as nat)
            + " GB"@
    }
}

fn nearest_of(n: u128, d: u128) -> (q: u128)
    requires
        d > 0,
        n < 0x1_0000_0000_0000_0000_0000_0000_0000,
        d < 0x1_0000_0000_0000_0000_0000_0000_0000,
    ensures
        q == nearest(n as int, d as int),
        q <= n + 1,
{
    let q: u128 = n / d;
    let r: u128 = n % d;
    proof {
        assert(r < d && q <= n) by (nonlinear_arith)
            requires
                d > 0,
                q == n / d,
                r == n % d,
        ;
    }
    if 2 * r > d || (2 * r == d && q % 2 == 1) {
        q + 1
    } else {
        q
    }
}

/// The step between neighbouring numbers of 53 significant bits.
fn round_to(b: u64, step: u128) -> (r: u128)
    requires
        1 <= step <= 2048,
    ensures
        r == nearest(b as int, step as int) * step,
        r < 0x1_0000_0000_0000_0000_0000_0000,
{
    let q: u128 = nearest_of(b as u128, step);
    assert(q * step <= 0x1_0000_0000_0000_0000 * 2048) by (nonlinear_arith)
        requires
            q <= 0x1_0000_0000_0000_0000,
            step <= 2048,
    ;
    q * step
}

fn rounded_of(b: u64) -> (r: u128)
    ensures
        r == rounded(b),
        r < 0x1_0000_0000_0000_0000_0000_0000,
{
    if b < 0x20_0000_0000_0000 {
        b as u128
    } else if b < 0x40_0000_0000_0000 {
        round_to(b, 2)
    } else if b < 0x80_0000_0000_0000 {
        round_to(b, 4)
    } else if b < 0x100_0000_0000_0000 {
        round_to(b, 8)
    } else if b < 0x200_0000_0000_0000 {
        round_to(b, 16)
    } else if b < 0x400_0000_0000_0000 {
        round_to(b, 32)
    } else if b < 0x800_0000_0000_0000 {
        round_to(b, 64)
    } else if b < 0x1000_0000_0000_0000 {
        round_to(b, 128)
    } else if b < 0x2000_0000_0000_0000 {
        round_to(b, 256)
    } else if b < 0x4000_0000_0000_0000 {
        round_to(b, 512)
    } else if b < 0x8000_0000_0000_0000 {
        round_to(b, 1024)
    } else {
        round_to(b, 2048)
    }
}

proof fn lemma_rounded(b: u64)
    ensures
        0 <= rounded(b) <= b + 2048,
{
}

fn push_bytes(s: &mut String, b: u64)
    ensures
        final(s)@ == old(s)@ + shown(b),
{
    let ghost had = s@;
    if b < 1024 {
        push_decimal(s, b);
        s.push_str(" B");
    } else if b < 0x10_0000 {
        let t: u128 = nearest_of(b as u128, 1024);
        push_decimal(s, t as u64);
        s.push_str(" KB");
    } else if b < 0x4000_0000 {
        let t: u128 = nearest_of(b as u128 * 10, 0x10_0000);
        push_decimal(s, (t / 10) as u64);
        s.push_str(".");
        push_decimal(s, (t % 10) as u64);
        s.push_str(" MB");
    } else {
        let r: u128 = rounded_of(b);
        proof {
            lemma_rounded(b);
        }
        let t: u128 = nearest_of(r * 100, 0x4000_0000);
        assert(t <= 0x1_0000_0000_0000_0000) by {
            assert(nearest(r * 100, 0x4000_0000) <= r * 100 / 0x4000_0000 + 1);
        }
        push_decimal(s, (t / 100) as u64);
        s.push_str(".");
        push_decimal(s, (t / 10 % 10) as u64);
        push_decimal(s, (t % 10) as u64);
        s.push_str(" GB");
    }
    assert(s@ =~= had + shown(b));
}

/// Human-readable byte count.
pub fn fmt_bytes(b: u64) -> (s: String)
    ensures
        s@ == shown(b),
{
    let mut s = String::new();
    push_bytes(&mut s, b);
    assert(s@ =~= shown(b));
    s
}

// --------------------------------------------------------------- readings --

/// The megabytes that the user pinned: a positive whole number, blanks around it
/// ignored.
pub open spec fn pinned_mb(s: Seq<char>) -> Option<nat> {
    match whole_number(trimmed(s), u64::MAX as nat) {
        Some(n) => if n > 0 {
            Some(n)
        } else {
            None
        },
        None => None,
    }
}

/// Reads the user's setting.
pub fn env_override_mb(setting: &str) -> (r: Option<u64>)
    ensures
        match r {
            Some(n) => pinned_mb(setting@) == Some(n as nat),
            None => pinned_mb(setting@) is None,
        },
{
    let cs = chars_of(setting);
    let t = trim_range(&cs, 0, cs.len());
    assert(cs@.subrange(0, cs@.len() as int) =~= cs@);
    match parse_whole(&t, u64::MAX) {
        Some(n) => if n > 0 {
            Some(n)
        } else {
            None
        },
        None => None,
    }
}

/// The first blank at or after `i`.
pub open spec fn word_end(s: Seq<char>, i: int) -> int
    decreases s.len() - i,
{
    if 0 <= i < s.len() && !whitespace(s[i]) {
        word_end(s, i + 1)
    } else {
        i
    }
}

/// The first word of a text, empty where there is none.
pub open spec fn first_word(s: Seq<char>) -> Seq<char> {
    let t = trim_start(s);
    t.subrange(0, word_end(t, 0))
}

/// The value in kilobytes that the lines from `i` on give for a key, in bytes. A
/// line is a key, a colon and a number; the first line with the key counts.
pub open spec fn meminfo_from(s: Seq<char>, key: Seq<char>, i: int) -> Option<u64>
    decreases s.len() - i,
{
    if !(0 <= i < s.len()) {
        None
    } else {
        let end = find_from(s, '\n', i);
        let line = s.subrange(i, end);
        let n = key.len() as int;
        if has_at(line, 0, key) && n < line.len() && line[n] == ':' {
            match whole_number(
                first_word(line.subrange(n + 1, line.len() as int)),
                u64::MAX as nat,
            ) {
                Some(kb) => Some(capped((kb * 1024) as int)),
                None => None,
            }
        } else if i <= end < s.len() {
            meminfo_from(s, key, end + 1)
        } else {
            None
        }
    }
}

/// The first word of `cs[from..]`.
fn read_word(cs: &Vec<char>, from: usize) -> (w: Vec<char>)
    requires
        from <= cs@.len(),
    ensures
        w@ == first_word(cs@.subrange(from as int, cs@.len() as int)),
{
    let n: usize = cs.len();
    let ghost whole = cs@.subrange(from as int, n as int);
    let mut a: usize = from;
    while a < n && is_whitespace(cs[a])
        invariant
            from <= a <= n == cs@.len(),
            trim_start(cs@.subrange(a as int, n as int)) == trim_start(whole),
        decreases n - a,
    {
        proof {
            let t = cs@.subrange(a as int, n as int);
            assert(t.subrange(1, t.len() as int) =~= cs@.subrange(a + 1, n as int));
        }
        a = a + 1;
    }
    let ghost t = cs@.subrange(a as int, n as int);
    assert(trim_start(t) == t);
    let mut b: usize = a;
    while b < n && !is_whitespace(cs[b])
        invariant
            a <= b <= n == cs@.len(),
            t == cs@.subrange(a as int, n as int),
            word_end(t, b - a) == word_end(t, 0),
        decreases n - b,
    {
        assert(t[b - a] == cs@[b as int]);
        b = b + 1;
    }
    assert(b < n ==> t[b - a] == cs@[b as int]);
    assert(word_end(t, b - a) == b - a);
    let w = slice_of(cs, a, b);
    assert(w@ =~= t.subrange(0, b - a));
    w
}

/// Reads one key of a table of memory sizes, in bytes.
pub fn meminfo(table: &str, key: &str) -> (r: Option<u64>)
    ensures
        r == meminfo_from(table@, key@, 0),
{
    let cs = chars_of(table);
    let klen: usize = chars_of(key).len();
    let n: usize = cs.len();
    let mut i: usize = 0;
    while i < n
        invariant
            i <= n + 1,
            n == cs@.len(),
            cs@ == table@,
            klen == key@.len(),
            meminfo_from(table@, key@, i as int) == meminfo_from(table@, key@, 0),
        decreases n + 1 - i,
    {
        let end: usize = find(&cs, '\n', i);
        let line = slice_of(&cs, i, end);
        if is_at(&line, 0, key) && klen < line.len() && line[klen] == ':' {
            let word = read_word(&line, klen + 1);
            return match parse_whole(&word, u64::MAX) {
                Some(kb) => match kb.checked_mul(1024) {
                    Some(b) => Some(b),
                    None => Some(u64::MAX),
                },
                None => None,
            };
        }
        if end >= n {
            return None;
        }
        i = end + 1;
    }
    None
}

// ------------------------------------------------------------------ cache --

/// A sample that is reused while it is fresh. Sampling costs a system call, which
/// is too much for a paint loop.
#[derive(Debug)]
pub struct CachedBudget {
    pub sample: Option<(Budget, u64)>,
}

impl CachedBudget {
    pub fn new() -> (c: CachedBudget)
        ensures
            c.sample is None,
    {
        CachedBudget { sample: None }
    }

    pub open spec fn fresh_at(self, now: u64) -> Option<Budget> {
        match self.sample {
            Some(t) => if (if now > t.1 {
                now - t.1
            } else {
                0
            }) < CACHE_MILLIS {
                Some(t.0)
            } else {
                None
            },
            None => None,
        }
    }

    /// The sample, while it is no older than [`CACHE_MILLIS`].
    pub fn fresh(&self, now_millis: u64) -> (r: Option<Budget>)
        ensures
            r == self.fresh_at(now_millis),
    {
        match self.sample {
            Some(t) => if now_millis.saturating_sub(t.1) < CACHE_MILLIS {
                Some(t.0)
            } else {
                None
            },
            None => None,
        }
    }

    /// Keeps a sample.
    pub fn keep(&mut self, b: Budget, now_millis: u64)
        ensures
            final(self).sample == Some((b, now_millis)),
    {
        self.sample = Some((b, now_millis));
    }
}

// ------------------------------------------------------------------- laws --

/// Caps grow with the machine: more memory never means a smaller cap.
pub proof fn caps_grow_with_the_machine(small: Budget, large: Budget, bytes_each: u64)
    requires
        small.available <= large.available,
    ensures
        small.claim() <= large.claim(),
        small.units(bytes_each) <= large.units(bytes_each),
{
    let d = if bytes_each == 0 {
        1
    } else {
        bytes_each
    };
    let a = small.claim();
    let b = large.claim();
    assert(a / d <= b / d) by (nonlinear_arith)
        requires
            a <= b,
            d > 0,
    ;
}

/// The reserve is held back, and yet even a starved machine has a usable cap.
pub proof fn the_reserve_is_held_back(b: Budget)
    ensures
        b.claim() >= MIN_CLAIM,
        b.claim() > MIN_CLAIM ==> b.claim() + RESERVE_BYTES < b.available,
{
}

/// What fits is admitted and nothing else: as many units as the cap allows fit.
pub proof fn the_cap_fits_the_claim(b: Budget, bytes_each: u64)
    ensures
        b.units(bytes_each) * bytes_each <= b.claim(),
{
    let c = b.claim();
    if bytes_each > 0 {
        assert((c / bytes_each) * bytes_each <= c) by (nonlinear_arith)
            requires
                bytes_each > 0,
        ;
    }
}

/// A sample that was just kept is reused at once.
pub proof fn a_kept_sample_is_reused(c: CachedBudget, b: Budget, now: u64, later: u64)
    requires
        c.sample == Some((b, now)),
        later < now + CACHE_MILLIS,
    ensures
        c.fresh_at(later) == Some(b),
{
}

/// Half of what is available beyond a reserve of 512 MB may be claimed, and never less
/// than 16 MB.
pub proof fn half_of_what_lies_beyond_the_reserve_is_claimed(b: Budget)
    ensures
        b.available >= 544 * 1048576 ==> 2 * b.claim() <= b.available - 512 * 1048576 <= 2
            * b.claim() + 1,
        b.available < 544 * 1048576 ==> b.claim() == 16 * 1048576,
{
}

/// What the user pinned goes before what was measured, what was measured before a guess
/// of 512 MB; a pinned figure is in megabytes.
pub proof fn a_pinned_figure_goes_before_a_measured_one(
    mb: u64,
    measured: Option<u64>,
    available: u64,
    total: Option<u64>,
)
    ensures
        mb * 1048576 <= u64::MAX ==> Budget::of_readings(Some(mb), measured, total).available == mb
            * 1048576,
        mb * 1048576 > u64::MAX ==> Budget::of_readings(Some(mb), measured, total).available
            == u64::MAX,
        Budget::of_readings(Some(mb), measured, total).source is Override,
        Budget::of_readings(None, Some(available), total).available == available,
        Budget::of_readings(None, Some(available), total).source is Measured,
        Budget::of_readings(None, None, total).available == 512 * 1048576,
        Budget::of_readings(None, None, total).source is Fallback,
        total is Some ==> Budget::of_readings(Some(mb), measured, total).total == total->0
            && Budget::of_readings(None, Some(available), total).total == total->0,
        total is None ==> Budget::of_readings(Some(mb), measured, total).total == 0,
{
}

/// As many units fit as the claim holds whole, one of no cost counting as a byte.
pub proof fn units_are_counted_whole(b: Budget, each: u64)
    ensures
        each > 0 ==> b.units(each) * each <= b.claim() < (b.units(each) + 1) * each,
        each == 0 ==> b.units(each) == b.claim(),
{
    if each > 0 {
        let c = b.claim() as int;
        let e = each as int;
        vstd::arithmetic::div_mod::lemma_fundamental_div_mod(c, e);
        let q = c / e;
        assert(e * q == q * e) by (nonlinear_arith);
        assert((q + 1) * e == q * e + e) by (nonlinear_arith);
    }
}

/// The nearest whole number of `d`s is nowhere further than half a `d` away, and of two
/// that are as near the even one is taken.
pub proof fn the_nearest_is_no_further_than_half(n: int, d: int)
    requires
        n >= 0,
        d > 0,
    ensures
        -d <= 2 * (n - nearest(n, d) * d) <= d,
        2 * (n - nearest(n, d) * d) == d || 2 * (n - nearest(n, d) * d) == -d ==> nearest(n, d) % 2
            == 0,
{
    vstd::arithmetic::div_mod::lemma_fundamental_div_mod(n, d);
    let q = n / d;
    let r = n % d;
    assert(d * q == q * d) by (nonlinear_arith);
    assert((q + 1) * d == q * d + d) by (nonlinear_arith);
}

/// A size is told in the largest of its units, rounded: in bytes below a kilobyte, in
/// whole kilobytes below a megabyte, in tenths of megabytes below a gigabyte, and in
/// hundredths of gigabytes from there on.
pub proof fn a_size_is_told_in_its_unit(b: u64)
    ensures
        b < 1024 ==> shown(b) == decimal(b as nat) + " B"@,
        1024 <= b < 1048576 ==> exists|t: nat|
            shown(b) == #[trigger] decimal(t) + " KB"@ && -512 <= b - t * 1024 <= 512,
        1048576 <= b < 1073741824 ==> exists|t: nat, u: nat|
            shown(b) == #[trigger] decimal(t) + "."@ + #[trigger] decimal(u) + " MB"@ && u < 10
                && -1048576 <= 2 * (b * 10 - (t * 10 + u) * 1048576) <= 1048576,
        1073741824 <= b < 0x20_0000_0000_0000 ==> exists|t: nat, u: nat, v: nat|
            shown(b) == #[trigger] decimal(t) + "."@ + #[trigger] decimal(u) + #[trigger] decimal(v)
                + " GB"@ && u < 10 && v < 10 && -1073741824 <= 2 * (b * 100 - (t * 100 + u * 10
                + v) * 1073741824) <= 1073741824,
{
    if 1024 <= b < 1048576 {
        let t = nearest(b as int, 1024);
        the_nearest_is_no_further_than_half(b as int, 1024);
        assert(shown(b) == decimal(t as nat) + " KB"@);
    } else if 1048576 <= b < 1073741824 {
        let t = nearest(b * 10, 1048576);
        the_nearest_is_no_further_than_half(b * 10, 1048576);
        assert(shown(b) == decimal((t / 10) as nat) + "."@ + decimal((t % 10) as nat) + " MB"@);
    } else if 1073741824 <= b < 0x20_0000_0000_0000 {
        let t = nearest(b * 100, 1073741824);
        the_nearest_is_no_further_than_half(b * 100, 1073741824);
        assert(t / 100 * 100 + t / 10 % 10 * 10 + t % 10 == t);
        assert(shown(b) == decimal((t / 100) as nat) + "."@ + decimal((t / 10 % 10) as nat)
            + decimal((t % 10) as nat) + " GB"@);
    }
}

/// A setting that is a number of one or more is that number; zero pins nothing.
pub proof fn a_setting_is_its_number(n: nat)
    requires
        n <= u64::MAX,
    ensures
        pinned_mb(decimal(n)) == if n > 0 {
            Some(n)
        } else {
            None
        },
{
    let s = decimal(n);
    lemma_decimal(n);
    assert(digit(s[0]) && digit(s[s.len() - 1]));
    assert(trim_start(s) == s);
    assert(trimmed(s) == s);
}

/// A line of a key, a colon, some spaces, a number and its unit tells so many
/// kilobytes; what follows it does not matter.
pub proof fn a_line_tells_kilobytes(
    key: Seq<char>,
    gap: Seq<char>,
    n: nat,
    unit: Seq<char>,
    rest: Seq<char>,
)
    requires
        n <= u64::MAX,
        forall|i: int| 0 <= i < key.len() ==> #[trigger] key[i] != '\n',
        forall|i: int| 0 <= i < gap.len() ==> #[trigger] gap[i] == ' ',
        forall|i: int| 0 <= i < unit.len() ==> #[trigger] unit[i] != '\n',
    ensures
        ({
            let line = key + seq![':'] + gap + decimal(n) + seq![' '] + unit;
            meminfo_from(line + seq!['\n'] + rest, key, 0) == Some(
                if n * 1024 <= u64::MAX {
                    (n * 1024) as u64
                } else {
                    u64::MAX
                },
            )
        }),
{
    let d = decimal(n);
    lemma_decimal(n);
    let line = key + seq![':'] + gap + d + seq![' '] + unit;
    let s = line + seq!['\n'] + rest;
    let k = key.len() as int;
    assert forall|i: int| 0 <= i < line.len() implies #[trigger] s[i] != '\n' by {
        assert(s[i] == line[i]);
        if k + 1 + gap.len() <= i < k + 1 + gap.len() + d.len() {
            assert(line[i] == d[i - k - 1 - gap.len()]);
            assert(digit(d[i - k - 1 - gap.len()]));
        }
    }
    lemma_line_end(s, 0, line.len() as int);
    assert(s.subrange(0, line.len() as int) =~= line);
    assert(line.subrange(0, k) =~= key);
    assert(line[k] == ':');
    let tail = gap + d + seq![' '] + unit;
    assert(line.subrange(k + 1, line.len() as int) =~= tail);
    let body = d + seq![' '] + unit;
    assert(tail =~= gap + body);
    assert(digit(d[0]));
    assert(body[0] == d[0]);
    lemma_gap(gap, body);
    lemma_word_end(body, 0, d.len() as int);
    assert(body.subrange(0, d.len() as int) =~= d);
    assert(digit(d[0]) && d[0] != '+');
}

proof fn lemma_line_end(s: Seq<char>, i: int, end: int)
    requires
        0 <= i <= end < s.len(),
        s[end] == '\n',
        forall|k: int| i <= k < end ==> #[trigger] s[k] != '\n',
    ensures
        find_from(s, '\n', i) == end,
    decreases end - i,
{
    if i < end {
        lemma_line_end(s, i + 1, end);
    }
}

proof fn lemma_gap(gap: Seq<char>, body: Seq<char>)
    requires
        forall|i: int| 0 <= i < gap.len() ==> #[trigger] gap[i] == ' ',
        body.len() > 0,
        !whitespace(body[0]),
    ensures
        trim_start(gap + body) == body,
    decreases gap.len(),
{
    if gap.len() == 0 {
        assert(gap + body =~= body);
    } else {
        let rest = gap.subrange(1, gap.len() as int);
        assert((gap + body)[0] == gap[0]);
        assert((gap + body).subrange(1, (gap + body).len() as int) =~= rest + body);
        lemma_gap(rest, body);
    }
}

proof fn lemma_word_end(s: Seq<char>, i: int, end: int)
    requires
        0 <= i <= end < s.len(),
        whitespace(s[end]),
        forall|k: int| 0 <= k < end ==> !whitespace(#[trigger] s[k]),
    ensures
        word_end(s, i) == end,
    decreases end - i,
{
    if i < end {
        lemma_word_end(s, i + 1, end);
    }
}

/// A sample serves for a second and no longer.
pub proof fn a_sample_serves_for_a_second(b: Budget, at: u64, now: u64)
    ensures
        ({
            let c = CachedBudget { sample: Some((b, at)) };
            &&& now < at + 1000 ==> c.fresh_at(now) == Some(b)
            &&& now >= at + 1000 ==> c.fresh_at(now) is None
        }),
{
}

} // verus!
