//! Access-point records: reading one observation per line of the tool's
//! terse output, merging the observations of one network, and ordering the
//! networks for display.

use vstd::prelude::*;
use crate::fields::{split_chars, split_fields, views};
use crate::text::{
    chars_of, contains_char, has_char, lower_of, lowercase, string_of, trim, trim_chars,
};

verus! {

/// One wireless network as discovered by a scan.
#[derive(Clone, Debug)]
pub struct AccessPoint {
    pub ssid: String,
    /// Strength in percent, 0 to 100.
    pub signal: u8,
    pub secure: bool,
    pub active: bool,
}

/// The mathematical content of an [`AccessPoint`].
pub ghost struct ApModel {
    pub ssid: Seq<char>,
    pub signal: u8,
    pub secure: bool,
    pub active: bool,
}

impl View for AccessPoint {
    type V = ApModel;

    open spec fn view(&self) -> ApModel {
        ApModel { ssid: self.ssid@, signal: self.signal, secure: self.secure, active: self.active }
    }
}

/// The name shown for a network that broadcasts no SSID.
pub open spec fn hidden_ssid() -> Seq<char> {
    "Hidden network"@
}

/// The pieces of `s` between newline characters.
pub open spec fn lines_of(s: Seq<char>) -> Seq<Seq<char>>
    decreases s.len(),
{
    if s.len() == 0 {
        seq![Seq::empty()]
    } else {
        let ls = lines_of(s.drop_last());
        if s.last() == '\n' {
            ls.push(Seq::empty())
        } else {
            ls.update(ls.len() - 1, ls.last().push(s.last()))
        }
    }
}

pub open spec fn is_digit(c: char) -> bool {
    48 <= (c as u32) && (c as u32) <= 57
}

pub open spec fn all_digits(d: Seq<char>) -> bool {
    d.len() > 0 && forall|i: int| 0 <= i < d.len() ==> is_digit(#[trigger] d[i])
}

/// The value of a run of decimal digits.
pub open spec fn digits_value(d: Seq<char>) -> int
    decreases d.len(),
{
    if d.len() == 0 {
        0
    } else {
        digits_value(d.drop_last()) * 10 + ((d.last() as u32) - 48)
    }
}

pub open spec fn clamp_percent(v: int) -> int {
    if v > 100 {
        100
    } else {
        v
    }
}

/// The signal strength written in a field: a decimal integer, clamped to
/// 0..=100; a negative number clamps to 0 and anything else reads as 0.
pub open spec fn signal_of(t: Seq<char>) -> int {
    if all_digits(t) {
        clamp_percent(digits_value(t))
    } else if t.len() > 0 && t[0] == '+' && all_digits(t.drop_first()) {
        clamp_percent(digits_value(t.drop_first()))
    } else {
        0
    }
}

/// The SSID shown for a (trimmed) SSID field.
pub open spec fn ssid_of(t: Seq<char>) -> Seq<char> {
    if t.len() == 0 {
        hidden_ssid()
    } else {
        t
    }
}

/// Whether a (trimmed) security field names any security.
pub open spec fn secure_of(t: Seq<char>) -> bool {
    !(t.len() == 0 || t == "--"@)
}

/// The observation that one line holds: in-use marker, SSID, security and
/// signal, separated by unescaped colons. Blank lines and lines of fewer
/// than four fields hold none.
pub open spec fn line_record(line: Seq<char>) -> Option<ApModel> {
    let t = trim(line);
    let f = split_fields(t, ':');
    if t.len() == 0 || f.len() < 4 {
        None
    } else {
        Some(
            ApModel {
                ssid: ssid_of(trim(f[1])),
                signal: signal_of(trim(f[3])) as u8,
                secure: secure_of(trim(f[2])),
                active: has_char(f[0], '*'),
            },
        )
    }
}

/// The observations held by a sequence of lines, in order.
pub open spec fn records_of(lines: Seq<Seq<char>>) -> Seq<ApModel>
    decreases lines.len(),
{
    if lines.len() == 0 {
        Seq::empty()
    } else {
        let rs = records_of(lines.drop_last());
        match line_record(lines.last()) {
            Some(r) => rs.push(r),
            None => rs,
        }
    }
}

/// The observations in the full output of a list command.
pub open spec fn observations(txt: Seq<char>) -> Seq<ApModel> {
    records_of(lines_of(txt))
}

/// Splits text at each newline character.
fn split_lines(v: &Vec<char>) -> (r: Vec<Vec<char>>)
    ensures
        views(r@) == lines_of(v@),
{
    let mut out: Vec<Vec<char>> = Vec::new();
    let mut cur: Vec<char> = Vec::new();
    let mut i: usize = 0;
    assert(v@.subrange(0, 0) =~= Seq::<char>::empty());
    while i < v.len()
        invariant
            i <= v.len(),
            views(out@).push(cur@) == lines_of(v@.subrange(0, i as int)),
        decreases v.len() - i,
    {
        let ch = v[i];
        let ghost prev = views(out@).push(cur@);
        proof {
            let p = v@.subrange(0, i as int + 1);
            assert(p.drop_last() =~= v@.subrange(0, i as int));
            assert(p.last() == ch);
        }
        if ch == '\n' {
            let ghost before = out@;
            out.push(cur);
            cur = Vec::new();
            assert(views(out@) =~= views(before).push(views(out@).last()));
            assert(views(out@).push(cur@) =~= prev.push(Seq::empty()));
        } else {
            cur.push(ch);
            assert(views(out@).push(cur@) =~= prev.update(prev.len() - 1, prev.last().push(ch)));
        }
        i += 1;
    }
    assert(v@.subrange(0, v.len() as int) =~= v@);
    let ghost before = out@;
    out.push(cur);
    assert(views(out@) =~= views(before).push(views(out@).last()));
    out
}

/// Reads a signal strength field (already trimmed).
pub fn parse_signal(t: &Vec<char>) -> (r: u8)
    ensures
        r as int == signal_of(t@),
{
    let plus = t.len() > 0 && t[0] == '+';
    let start: usize = if plus { 1 } else { 0 };
    assert(plus ==> t@[0] == '+');
    assert(!is_digit('+'));
    let ghost d = t@.subrange(start as int, t.len() as int);
    if start == 1 {
        assert(d =~= t@.drop_first());
    } else {
        assert(d =~= t@);
    }
    if start >= t.len() {
        assert(!all_digits(d));
        return 0;
    }
    let mut acc: u32 = 0;
    let mut i: usize = start;
    assert(t@.subrange(start as int, start as int) =~= Seq::<char>::empty());
    while i < t.len()
        invariant
            start <= i <= t.len(),
            start <= 1,
            start == 1 ==> t@[0] == '+',
            start == 0 ==> !(t@.len() > 0 && t@[0] == '+'),
            d == t@.subrange(start as int, t.len() as int),
            forall|k: int| start <= k < i ==> is_digit(#[trigger] t@[k]),
            acc as int == (if digits_value(t@.subrange(start as int, i as int)) > 100 {
                101
            } else {
                digits_value(t@.subrange(start as int, i as int))
            }),
            digits_value(t@.subrange(start as int, i as int)) >= 0,
        decreases t.len() - i,
    {
        let c = t[i];
        let code = c as u32;
        if code < 48 || code > 57 {
            assert(!is_digit(d[i - start]));
            assert(!all_digits(d));
            if start == 1 {
                assert(!all_digits(t@)) by {
                    assert(!is_digit(t@[0]));
                }
            }
            return 0;
        }
        let ghost p = t@.subrange(start as int, i as int + 1);
        assert(p.drop_last() =~= t@.subrange(start as int, i as int));
        assert(p.last() == c);
        if acc > 100 {
            acc = 101;
        } else {
            acc = acc * 10 + (code - 48);
            if acc > 100 {
                acc = 101;
            }
        }
        i += 1;
    }
    assert(t@.subrange(start as int, t.len() as int) == d);
    assert(all_digits(d));
    if start == 1 {
        assert(!all_digits(t@)) by {
            assert(!is_digit(t@[0]));
        }
    }
    if acc > 100 {
        100
    } else {
        acc as u8
    }
}

/// Whether a trimmed security field names any security.
fn parse_secure(t: &Vec<char>) -> (r: bool)
    ensures
        r == secure_of(t@),
{
    proof {
        reveal_strlit("--");
    }
    if t.len() == 0 {
        return false;
    }
    if t.len() == 2 && t[0] == '-' && t[1] == '-' {
        assert(t@ =~= "--"@);
        return false;
    }
    assert(t@ != "--"@ ) by {
        if t@ == "--"@ {
            assert(t@[0] == '-' && t@[1] == '-');
        }
    }
    true
}

/// Reads one line of terse list output into an observation.
pub fn parse_line(line: &Vec<char>) -> (r: Option<AccessPoint>)
    ensures
        line_record(line@) == (match r {
            Some(ap) => Some(ap@),
            None => None::<ApModel>,
        }),
{
    let t = trim_chars(line);
    if t.len() == 0 {
        return None;
    }
    let f = split_chars(&t, ':');
    if f.len() < 4 {
        return None;
    }
    assert(views(f@)[0] == f@[0]@);
    assert(views(f@)[1] == f@[1]@);
    assert(views(f@)[2] == f@[2]@);
    assert(views(f@)[3] == f@[3]@);
    let active = contains_char(&f[0], '*');
    let ssid_t = trim_chars(&f[1]);
    let ssid = if ssid_t.len() == 0 {
        string_of(&chars_of("Hidden network"))
    } else {
        string_of(&ssid_t)
    };
    let secure = parse_secure(&trim_chars(&f[2]));
    let signal = parse_signal(&trim_chars(&f[3]));
    Some(AccessPoint { ssid, signal, secure, active })
}

/// Whether some observation is of the network `s`.
pub open spec fn seen(obs: Seq<ApModel>, s: Seq<char>) -> bool {
    exists|i: int| 0 <= i < obs.len() && #[trigger] obs[i].ssid == s
}

/// The strongest signal observed for the network `s` (0 if none).
pub open spec fn best_signal(obs: Seq<ApModel>, s: Seq<char>) -> u8
    decreases obs.len(),
{
    if obs.len() == 0 {
        0
    } else {
        let m = best_signal(obs.drop_last(), s);
        if obs.last().ssid == s && obs.last().signal > m {
            obs.last().signal
        } else {
            m
        }
    }
}

/// Whether some observation of `s` is secured.
pub open spec fn any_secure(obs: Seq<ApModel>, s: Seq<char>) -> bool {
    exists|i: int| 0 <= i < obs.len() && #[trigger] obs[i].ssid == s && obs[i].secure
}

/// Whether some observation of `s` is the network in use.
pub open spec fn any_active(obs: Seq<ApModel>, s: Seq<char>) -> bool {
    exists|i: int| 0 <= i < obs.len() && #[trigger] obs[i].ssid == s && obs[i].active
}

/// The single record for `s` that all its observations merge into: the
/// strongest signal, and secure or active if any observation is.
pub open spec fn merged_entry(obs: Seq<ApModel>, s: Seq<char>) -> ApModel {
    ApModel { ssid: s, signal: best_signal(obs, s), secure: any_secure(obs, s), active: any_active(obs, s) }
}

/// `r` holds exactly one merged record for each network observed, and no other.
pub open spec fn merged_from(r: Seq<AccessPoint>, obs: Seq<ApModel>) -> bool {
    &&& forall|k: int|
        0 <= k < r.len() ==> seen(obs, (#[trigger] r[k])@.ssid) && r[k]@ == merged_entry(obs, r[k]@.ssid)
    &&& forall|s: Seq<char>| seen(obs, s) ==> exists|k: int| 0 <= k < r.len() && (#[trigger] r[k])@.ssid == s
    &&& forall|j: int, k: int|
        0 <= j < r.len() && 0 <= k < r.len() && j != k ==> (#[trigger] r[j])@.ssid != (#[trigger] r[k])@.ssid
}

proof fn lemma_unseen_entry(obs: Seq<ApModel>, s: Seq<char>)
    requires
        !seen(obs, s),
    ensures
        best_signal(obs, s) == 0,
        !any_secure(obs, s),
        !any_active(obs, s),
    decreases obs.len(),
{
    if obs.len() > 0 {
        assert(obs.drop_last().len() < obs.len());
        assert(!seen(obs.drop_last(), s)) by {
            if seen(obs.drop_last(), s) {
                let i = choose|i: int| 0 <= i < obs.drop_last().len() && #[trigger] obs.drop_last()[i].ssid == s;
                assert(obs[i].ssid == s);
            }
        }
        lemma_unseen_entry(obs.drop_last(), s);
        assert(obs[obs.len() - 1].ssid != s);
    }
}

proof fn lemma_entry_push(obs: Seq<ApModel>, x: ApModel, s: Seq<char>)
    ensures
        seen(obs.push(x), s) == (seen(obs, s) || x.ssid == s),
        x.ssid != s ==> merged_entry(obs.push(x), s) == merged_entry(obs, s),
        x.ssid == s ==> merged_entry(obs.push(x), s) == (ApModel {
            ssid: s,
            signal: if x.signal > best_signal(obs, s) { x.signal } else { best_signal(obs, s) },
            secure: any_secure(obs, s) || x.secure,
            active: any_active(obs, s) || x.active,
        }),
{
    let o2 = obs.push(x);
    assert(o2.drop_last() =~= obs);
    assert(o2[obs.len() as int] == x);
    assert forall|i: int| 0 <= i < obs.len() implies #[trigger] o2[i] == obs[i] by {}
    if seen(o2, s) && !seen(obs, s) {
        let i = choose|i: int| 0 <= i < o2.len() && #[trigger] o2[i].ssid == s;
        if i < obs.len() {
            assert(obs[i].ssid == s);
        }
    }
    if seen(obs, s) {
        let i = choose|i: int| 0 <= i < obs.len() && #[trigger] obs[i].ssid == s;
        assert(o2[i].ssid == s);
    }
    if any_secure(o2, s) && x.ssid != s {
        let i = choose|i: int| 0 <= i < o2.len() && #[trigger] o2[i].ssid == s && o2[i].secure;
        assert(obs[i].ssid == s && obs[i].secure);
    }
    if any_secure(o2, s) && x.ssid == s && !x.secure {
        let i = choose|i: int| 0 <= i < o2.len() && #[trigger] o2[i].ssid == s && o2[i].secure;
        assert(obs[i].ssid == s && obs[i].secure);
    }
    if any_secure(obs, s) {
        let i = choose|i: int| 0 <= i < obs.len() && #[trigger] obs[i].ssid == s && obs[i].secure;
        assert(o2[i].ssid == s && o2[i].secure);
    }
    if any_active(o2, s) && x.ssid != s {
        let i = choose|i: int| 0 <= i < o2.len() && #[trigger] o2[i].ssid == s && o2[i].active;
        assert(obs[i].ssid == s && obs[i].active);
    }
    if any_active(o2, s) && x.ssid == s && !x.active {
        let i = choose|i: int| 0 <= i < o2.len() && #[trigger] o2[i].ssid == s && o2[i].active;
        assert(obs[i].ssid == s && obs[i].active);
    }
    if any_active(obs, s) {
        let i = choose|i: int| 0 <= i < obs.len() && #[trigger] obs[i].ssid == s && obs[i].active;
        assert(o2[i].ssid == s && o2[i].active);
    }
    if x.ssid == s {
        assert(o2[obs.len() as int].ssid == s);
        if x.secure {
            assert(o2[obs.len() as int].secure);
        }
        if x.active {
            assert(o2[obs.len() as int].active);
        }
    }
}

/// Merges one more observation into records that merge the earlier ones.
fn absorb(acc: &mut Vec<AccessPoint>, ap: AccessPoint, Ghost(obs): Ghost<Seq<ApModel>>)
    requires
        merged_from(old(acc)@, obs),
    ensures
        merged_from(final(acc)@, obs.push(ap@)),
{
    let ghost x = ap@;
    let ghost o2 = obs.push(x);
    let mut idx: usize = 0;
    let mut found = false;
    while !found && idx < acc.len()
        invariant
            idx <= acc.len(),
            x == ap@,
            found ==> idx < acc.len() && acc@[idx as int]@.ssid == x.ssid,
            !found ==> forall|k: int| 0 <= k < idx ==> (#[trigger] acc@[k])@.ssid != x.ssid,
        decreases acc.len() - idx + (if found { 0int } else { 1int }),
    {
        if acc[idx].ssid == ap.ssid {
            found = true;
        } else {
            idx += 1;
        }
    }
    let ghost a0 = acc@;
    if found {
        let mut e = acc.remove(idx);
        if ap.signal > e.signal {
            e.signal = ap.signal;
        }
        e.secure = e.secure || ap.secure;
        e.active = e.active || ap.active;
        acc.insert(idx, e);
        proof {
            lemma_entry_push(obs, x, x.ssid);
            assert(acc@ =~= a0.update(idx as int, e));
            assert forall|k: int| 0 <= k < acc@.len() implies seen(o2, (#[trigger] acc@[k])@.ssid) && acc@[k]@
                == merged_entry(o2, acc@[k]@.ssid) by {
                lemma_entry_push(obs, x, acc@[k]@.ssid);
                if k != idx {
                    assert(acc@[k] == a0[k]);
                    assert(a0[k]@.ssid != a0[idx as int]@.ssid);
                }
            }
            assert forall|s: Seq<char>| seen(o2, s) implies exists|k: int| 0 <= k < acc@.len() && (#[trigger] acc@[k])@.ssid == s by {
                lemma_entry_push(obs, x, s);
                if s == x.ssid {
                    assert(acc@[idx as int]@.ssid == s);
                } else {
                    let k = choose|k: int| 0 <= k < a0.len() && (#[trigger] a0[k])@.ssid == s;
                    assert(acc@[k]@.ssid == s);
                }
            }
            assert forall|j: int, k: int| 0 <= j < acc@.len() && 0 <= k < acc@.len() && j != k implies
                (#[trigger] acc@[j])@.ssid != (#[trigger] acc@[k])@.ssid by {
                assert(a0[j]@.ssid != a0[k]@.ssid);
            }
        }
    } else {
        acc.push(ap);
        proof {
            assert(!seen(obs, x.ssid)) by {
                if seen(obs, x.ssid) {
                    let k = choose|k: int| 0 <= k < a0.len() && (#[trigger] a0[k])@.ssid == x.ssid;
                }
            }
            lemma_unseen_entry(obs, x.ssid);
            assert(acc@ =~= a0.push(ap));
            assert forall|k: int| 0 <= k < acc@.len() implies seen(o2, (#[trigger] acc@[k])@.ssid) && acc@[k]@
                == merged_entry(o2, acc@[k]@.ssid) by {
                lemma_entry_push(obs, x, acc@[k]@.ssid);
                if k < a0.len() {
                    assert(acc@[k] == a0[k]);
                }
            }
            assert forall|s: Seq<char>| seen(o2, s) implies exists|k: int| 0 <= k < acc@.len() && (#[trigger] acc@[k])@.ssid == s by {
                lemma_entry_push(obs, x, s);
                if s == x.ssid {
                    assert(acc@[a0.len() as int]@.ssid == s);
                } else {
                    let k = choose|k: int| 0 <= k < a0.len() && (#[trigger] a0[k])@.ssid == s;
                    assert(acc@[k]@.ssid == s);
                }
            }
        }
    }
}

/// Strict lexicographic order of texts by character code; a proper prefix
/// comes first.
pub open spec fn lex_less(x: Seq<char>, y: Seq<char>) -> bool
    decreases x.len(),
{
    if x.len() == 0 {
        y.len() > 0
    } else if y.len() == 0 {
        false
    } else if x[0] != y[0] {
        (x[0] as int) < (y[0] as int)
    } else {
        lex_less(x.drop_first(), y.drop_first())
    }
}

/// Display order of two records, given the case-folded form of each SSID:
/// the network in use first, then the stronger signal, then the folded SSID
/// ascending, and last the SSID itself.
pub open spec fn before_keyed(a: ApModel, ka: Seq<char>, b: ApModel, kb: Seq<char>) -> bool {
    if a.active != b.active {
        a.active
    } else if a.signal != b.signal {
        a.signal > b.signal
    } else if ka != kb {
        lex_less(ka, kb)
    } else {
        lex_less(a.ssid, b.ssid)
    }
}

/// Display order of two records, folding each SSID to lowercase.
pub open spec fn ap_before(a: ApModel, b: ApModel) -> bool {
    before_keyed(a, lower_of(a.ssid), b, lower_of(b.ssid))
}

/// Every earlier record of `v` comes before every later one.
pub open spec fn sorted_aps(v: Seq<AccessPoint>) -> bool {
    forall|j: int, k: int| 0 <= j < k < v.len() ==> ap_before((#[trigger] v[j])@, (#[trigger] v[k])@)
}

proof fn lemma_lex_irreflexive(x: Seq<char>)
    ensures
        !lex_less(x, x),
    decreases x.len(),
{
    if x.len() > 0 {
        lemma_lex_irreflexive(x.drop_first());
    }
}

proof fn lemma_lex_transitive(x: Seq<char>, y: Seq<char>, z: Seq<char>)
    requires
        lex_less(x, y),
        lex_less(y, z),
    ensures
        lex_less(x, z),
    decreases x.len(),
{
    if x.len() > 0 && y.len() > 0 && z.len() > 0 && x[0] == y[0] && y[0] == z[0] {
        lemma_lex_transitive(x.drop_first(), y.drop_first(), z.drop_first());
    }
}

proof fn lemma_lex_total(x: Seq<char>, y: Seq<char>)
    requires
        x != y,
    ensures
        lex_less(x, y) || lex_less(y, x),
    decreases x.len(),
{
    if x.len() == 0 && y.len() == 0 {
        assert(x =~= y);
    }
    if x.len() > 0 && y.len() > 0 && x[0] == y[0] {
        if x.drop_first() == y.drop_first() {
            assert(x =~= seq![x[0]] + x.drop_first());
            assert(y =~= seq![y[0]] + y.drop_first());
        }
        lemma_lex_total(x.drop_first(), y.drop_first());
    }
    if x.len() > 0 && y.len() > 0 && x[0] != y[0] {
        assert((x[0] as int) != (y[0] as int));
    }
}

/// No record comes before itself, and of two records with different SSIDs
/// exactly one comes before the other.
pub proof fn lemma_order_strict_total(a: ApModel, b: ApModel)
    ensures
        !ap_before(a, a),
        a.ssid != b.ssid ==> (ap_before(a, b) || ap_before(b, a)),
        !(ap_before(a, b) && ap_before(b, a)),
{
    let (ka, kb) = (lower_of(a.ssid), lower_of(b.ssid));
    lemma_lex_irreflexive(a.ssid);
    lemma_lex_irreflexive(ka);
    if ka != kb {
        lemma_lex_total(ka, kb);
        if lex_less(ka, kb) && lex_less(kb, ka) {
            lemma_lex_transitive(ka, kb, ka);
        }
    } else if a.ssid != b.ssid {
        lemma_lex_total(a.ssid, b.ssid);
    }
    if lex_less(a.ssid, b.ssid) && lex_less(b.ssid, a.ssid) {
        lemma_lex_transitive(a.ssid, b.ssid, a.ssid);
    }
}

/// The display order is transitive.
pub proof fn lemma_order_transitive(a: ApModel, b: ApModel, c: ApModel)
    requires
        ap_before(a, b),
        ap_before(b, c),
    ensures
        ap_before(a, c),
{
    let (ka, kb, kc) = (lower_of(a.ssid), lower_of(b.ssid), lower_of(c.ssid));
    lemma_lex_irreflexive(ka);
    if lex_less(ka, kb) && lex_less(kb, kc) {
        lemma_lex_transitive(ka, kb, kc);
    }
    if lex_less(a.ssid, b.ssid) && lex_less(b.ssid, c.ssid) {
        lemma_lex_transitive(a.ssid, b.ssid, c.ssid);
    }
}

/// Strict lexicographic comparison of two character vectors.
fn lex_less_chars(x: &Vec<char>, y: &Vec<char>) -> (r: bool)
    ensures
        r == lex_less(x@, y@),
{
    let mut i: usize = 0;
    assert(x@.subrange(0, x.len() as int) =~= x@);
    assert(y@.subrange(0, y.len() as int) =~= y@);
    while i < x.len() && i < y.len() && x[i] == y[i]
        invariant
            i <= x.len(),
            i <= y.len(),
            lex_less(x@, y@) == lex_less(x@.subrange(i as int, x.len() as int), y@.subrange(i as int, y.len() as int)),
        decreases x.len() - i,
    {
        let ghost xs = x@.subrange(i as int, x.len() as int);
        let ghost ys = y@.subrange(i as int, y.len() as int);
        assert(xs.drop_first() =~= x@.subrange(i as int + 1, x.len() as int));
        assert(ys.drop_first() =~= y@.subrange(i as int + 1, y.len() as int));
        i += 1;
    }
    let ghost xs = x@.subrange(i as int, x.len() as int);
    let ghost ys = y@.subrange(i as int, y.len() as int);
    if i == x.len() {
        i < y.len()
    } else if i == y.len() {
        false
    } else {
        assert(xs[0] == x@[i as int] && ys[0] == y@[i as int]);
        x[i] < y[i]
    }
}

/// Display order of two records given the case-folded SSID of each
/// (`a_key` for `a`, `b_key` for `b`).
pub fn ranks_before(a: &AccessPoint, a_key: &Vec<char>, b: &AccessPoint, b_key: &Vec<char>) -> (r: bool)
    ensures
        r == before_keyed(a@, a_key@, b@, b_key@),
{
    if a.active != b.active {
        a.active
    } else if a.signal != b.signal {
        a.signal > b.signal
    } else if lex_less_chars(a_key, b_key) {
        proof {
            lemma_lex_irreflexive(a_key@);
        }
        true
    } else if lex_less_chars(b_key, a_key) {
        proof {
            lemma_lex_irreflexive(a_key@);
        }
        false
    } else {
        proof {
            if a_key@ != b_key@ {
                lemma_lex_total(a_key@, b_key@);
            }
        }
        lex_less_chars(&chars_of(a.ssid.as_str()), &chars_of(b.ssid.as_str()))
    }
}

/// Display order of two records.
pub fn precedes(a: &AccessPoint, b: &AccessPoint) -> (r: bool)
    ensures
        r == ap_before(a@, b@),
{
    let a_key = lowercase(&chars_of(a.ssid.as_str()));
    let b_key = lowercase(&chars_of(b.ssid.as_str()));
    ranks_before(a, &a_key, b, &b_key)
}

/// Some record of `v` equals `m`.
pub open spec fn holds(v: Seq<AccessPoint>, m: ApModel) -> bool {
    exists|k: int| 0 <= k < v.len() && (#[trigger] v[k])@ == m
}

/// No two records of `v` share an SSID.
pub open spec fn distinct_ssids(v: Seq<AccessPoint>) -> bool {
    forall|j: int, k: int|
        0 <= j < v.len() && 0 <= k < v.len() && j != k ==> (#[trigger] v[j])@.ssid != (#[trigger] v[k])@.ssid
}

/// The position at which `x` enters the sorted records `out`.
fn insert_position(out: &Vec<AccessPoint>, x: &AccessPoint) -> (p: usize)
    ensures
        p <= out.len(),
        forall|j: int| 0 <= j < p ==> !ap_before(x@, (#[trigger] out@[j])@),
        p < out.len() ==> ap_before(x@, out@[p as int]@),
{
    let mut p: usize = 0;
    while p < out.len() && !precedes(x, &out[p])
        invariant
            p <= out.len(),
            forall|j: int| 0 <= j < p ==> !ap_before(x@, (#[trigger] out@[j])@),
        decreases out.len() - p,
    {
        p += 1;
    }
    p
}

/// Orders records with distinct SSIDs for display.
fn sort_records(v: Vec<AccessPoint>) -> (r: Vec<AccessPoint>)
    requires
        distinct_ssids(v@),
    ensures
        sorted_aps(r@),
        distinct_ssids(r@),
        forall|k: int| 0 <= k < r@.len() ==> holds(v@, (#[trigger] r@[k])@),
        forall|j: int| 0 <= j < v@.len() ==> holds(r@, (#[trigger] v@[j])@),
{
    let ghost v0 = v@;
    let mut src = v;
    let mut out: Vec<AccessPoint> = Vec::new();
    proof {
        assert forall|j: int| 0 <= j < v0.len() implies holds(src@, (#[trigger] v0[j])@) || holds(out@, v0[j]@) by {
            assert(src@[j] == v0[j]);
        }
        assert forall|k: int| 0 <= k < src@.len() implies holds(v0, (#[trigger] src@[k])@) by {
            assert(v0[k] == src@[k]);
        }
    }
    while src.len() > 0
        invariant
            sorted_aps(out@),
            distinct_ssids(src@),
            distinct_ssids(out@),
            forall|j: int, k: int| 0 <= j < src@.len() && 0 <= k < out@.len() ==> (#[trigger] src@[j])@.ssid
                != (#[trigger] out@[k])@.ssid,
            forall|k: int| 0 <= k < src@.len() ==> holds(v0, (#[trigger] src@[k])@),
            forall|k: int| 0 <= k < out@.len() ==> holds(v0, (#[trigger] out@[k])@),
            forall|j: int| 0 <= j < v0.len() ==> holds(src@, (#[trigger] v0[j])@) || holds(out@, v0[j]@),
        decreases src.len(),
    {
        let ghost s0 = src@;
        let ghost o0 = out@;
        let x = src.pop().unwrap();
        let ghost last = s0.len() - 1;
        assert(src@ =~= s0.drop_last());
        assert(x == s0[last]);
        let p = insert_position(&out, &x);
        out.insert(p, x);
        proof {
            let o1 = out@;
            assert(o1 =~= o0.insert(p as int, x));
            assert forall|k: int| 0 <= k < o0.len() implies #[trigger] o0[k]@.ssid != x@.ssid by {
                assert(s0[last]@.ssid != o0[k]@.ssid);
            }
            assert forall|j: int, k: int| 0 <= j < k < o1.len() implies ap_before((#[trigger] o1[j])@, (#[trigger] o1[k])@) by {
                if k < p {
                    assert(o1[j] == o0[j] && o1[k] == o0[k]);
                } else if k == p {
                    assert(o1[j] == o0[j]);
                    assert(!ap_before(x@, o0[j]@));
                    lemma_order_strict_total(x@, o0[j]@);
                } else if j < p {
                    assert(o1[j] == o0[j] && o1[k] == o0[k - 1]);
                } else if j == p {
                    assert(o1[k] == o0[k - 1]);
                    if k - 1 > p {
                        assert(ap_before(o0[p as int]@, o0[k - 1]@));
                        lemma_order_transitive(x@, o0[p as int]@, o0[k - 1]@);
                    }
                } else {
                    assert(o1[j] == o0[j - 1] && o1[k] == o0[k - 1]);
                }
            }
            assert forall|j: int, k: int| 0 <= j < o1.len() && 0 <= k < o1.len() && j != k implies
                (#[trigger] o1[j])@.ssid != (#[trigger] o1[k])@.ssid by {
                let jj = if j < p { j } else { j - 1 };
                let kk = if k < p { k } else { k - 1 };
                if j != p && k != p {
                    assert(o1[j] == o0[jj] && o1[k] == o0[kk]);
                } else if j == p {
                    assert(o1[k] == o0[kk]);
                } else {
                    assert(o1[j] == o0[jj]);
                }
            }
            assert forall|j: int, k: int| 0 <= j < src@.len() && 0 <= k < o1.len() implies
                (#[trigger] src@[j])@.ssid != (#[trigger] o1[k])@.ssid by {
                assert(src@[j] == s0[j]);
                if k < p {
                    assert(o1[k] == o0[k]);
                } else if k > p {
                    assert(o1[k] == o0[k - 1]);
                }
            }
            assert forall|k: int| 0 <= k < src@.len() implies holds(v0, (#[trigger] src@[k])@) by {
                assert(src@[k] == s0[k]);
            }
            assert forall|k: int| 0 <= k < o1.len() implies holds(v0, (#[trigger] o1[k])@) by {
                if k < p {
                    assert(o1[k] == o0[k]);
                } else if k > p {
                    assert(o1[k] == o0[k - 1]);
                } else {
                    assert(s0[last] == x);
                }
            }
            assert forall|j: int| 0 <= j < v0.len() implies holds(src@, (#[trigger] v0[j])@) || holds(o1, v0[j]@) by {
                if holds(s0, v0[j]@) {
                    let i = choose|i: int| 0 <= i < s0.len() && (#[trigger] s0[i])@ == v0[j]@;
                    if i == last {
                        assert(o1[p as int] == x);
                    } else {
                        assert(src@[i] == s0[i]);
                    }
                } else {
                    let i = choose|i: int| 0 <= i < o0.len() && (#[trigger] o0[i])@ == v0[j]@;
                    if i < p {
                        assert(o1[i] == o0[i]);
                    } else {
                        assert(o1[i + 1] == o0[i]);
                    }
                }
            }
        }
    }
    out
}

/// Reads the full output of a list command into one record per network,
/// merged over all observations of that network and ordered for display.
pub fn parse_ap_list(txt: &str) -> (r: Vec<AccessPoint>)
    ensures
        merged_from(r@, observations(txt@)),
        sorted_aps(r@),
{
    let chars = chars_of(txt);
    let lines = split_lines(&chars);
    let ghost ls = views(lines@);
    let mut acc: Vec<AccessPoint> = Vec::new();
    let ghost mut obs: Seq<ApModel> = Seq::empty();
    let mut i: usize = 0;
    assert(ls.subrange(0, 0) =~= Seq::<Seq<char>>::empty());
    while i < lines.len()
        invariant
            i <= lines.len(),
            ls == views(lines@),
            obs == records_of(ls.subrange(0, i as int)),
            merged_from(acc@, obs),
        decreases lines.len() - i,
    {
        let rec = parse_line(&lines[i]);
        proof {
            let p = ls.subrange(0, i as int + 1);
            assert(p.drop_last() =~= ls.subrange(0, i as int));
            assert(p.last() == lines@[i as int]@);
        }
        match rec {
            Some(ap) => {
                let ghost prev = obs;
                let ghost x = ap@;
                absorb(&mut acc, ap, Ghost(prev));
                proof {
                    obs = prev.push(x);
                }
            },
            None => {},
        }
        i += 1;
    }
    assert(ls.subrange(0, lines.len() as int) =~= ls);
    let ghost merged = acc@;
    let r = sort_records(acc);
    proof {
        let o = observations(txt@);
        assert forall|k: int| 0 <= k < r@.len() implies seen(o, (#[trigger] r@[k])@.ssid) && r@[k]@
            == merged_entry(o, r@[k]@.ssid) by {
            assert(holds(merged, r@[k]@));
            let i = choose|i: int| 0 <= i < merged.len() && (#[trigger] merged[i])@ == r@[k]@;
        }
        assert forall|s: Seq<char>| seen(o, s) implies exists|k: int| 0 <= k < r@.len() && (#[trigger] r@[k])@.ssid == s by {
            let i = choose|i: int| 0 <= i < merged.len() && (#[trigger] merged[i])@.ssid == s;
            assert(holds(r@, merged[i]@));
            let k = choose|k: int| 0 <= k < r@.len() && (#[trigger] r@[k])@ == merged[i]@;
            assert(r@[k]@.ssid == s);
        }
    }
    r
}

/// The models of a sequence of records.
pub open spec fn models(v: Seq<AccessPoint>) -> Seq<ApModel> {
    v.map_values(|a: AccessPoint| a@)
}

proof fn lemma_sorted_models_equal(m1: Seq<ApModel>, m2: Seq<ApModel>)
    requires
        forall|j: int, k: int| 0 <= j < k < m1.len() ==> ap_before(#[trigger] m1[j], #[trigger] m1[k]),
        forall|j: int, k: int| 0 <= j < k < m2.len() ==> ap_before(#[trigger] m2[j], #[trigger] m2[k]),
        forall|x: ApModel| m1.contains(x) <==> m2.contains(x),
    ensures
        m1 == m2,
    decreases m1.len(),
{
    if m1.len() == 0 {
        if m2.len() > 0 {
            assert(m2.contains(m2[0]));
        }
        assert(m1 =~= m2);
    } else {
        assert(m1.contains(m1[0]));
        let j = choose|j: int| 0 <= j < m2.len() && m2[j] == m1[0];
        assert(m2.contains(m2[0]));
        let i = choose|i: int| 0 <= i < m1.len() && m1[i] == m2[0];
        lemma_order_strict_total(m1[0], m2[0]);
        if j > 0 {
            assert(ap_before(m2[0], m2[j]));
            if i > 0 {
                assert(ap_before(m1[0], m1[i]));
            }
        }
        assert(m1[0] == m2[0]);
        let (t1, t2) = (m1.drop_first(), m2.drop_first());
        assert forall|x: ApModel| t1.contains(x) <==> t2.contains(x) by {
            if t1.contains(x) {
                let k = choose|k: int| 0 <= k < t1.len() && t1[k] == x;
                assert(ap_before(m1[0], m1[k + 1]));
                lemma_order_strict_total(x, x);
                assert(m2.contains(x));
                let q = choose|q: int| 0 <= q < m2.len() && m2[q] == x;
                assert(q != 0);
                assert(t2[q - 1] == x);
            }
            if t2.contains(x) {
                let k = choose|k: int| 0 <= k < t2.len() && t2[k] == x;
                assert(ap_before(m2[0], m2[k + 1]));
                lemma_order_strict_total(x, x);
                assert(m1.contains(x));
                let q = choose|q: int| 0 <= q < m1.len() && m1[q] == x;
                assert(q != 0);
                assert(t1[q - 1] == x);
            }
        }
        assert forall|j: int, k: int| 0 <= j < k < t1.len() implies ap_before(#[trigger] t1[j], #[trigger] t1[k]) by {
            assert(ap_before(m1[j + 1], m1[k + 1]));
        }
        assert forall|j: int, k: int| 0 <= j < k < t2.len() implies ap_before(#[trigger] t2[j], #[trigger] t2[k]) by {
            assert(ap_before(m2[j + 1], m2[k + 1]));
        }
        lemma_sorted_models_equal(t1, t2);
        assert(m1 =~= seq![m1[0]] + t1);
        assert(m2 =~= seq![m2[0]] + t2);
    }
}

/// The display order leaves nothing open: two listings that each hold the
/// merged records of the same observations, in display order, are equal.
pub proof fn lemma_listing_determined(r1: Seq<AccessPoint>, r2: Seq<AccessPoint>, obs: Seq<ApModel>)
    requires
        merged_from(r1, obs),
        merged_from(r2, obs),
        sorted_aps(r1),
        sorted_aps(r2),
    ensures
        models(r1) == models(r2),
{
    let (m1, m2) = (models(r1), models(r2));
    assert forall|j: int, k: int| 0 <= j < k < m1.len() implies ap_before(#[trigger] m1[j], #[trigger] m1[k]) by {
        assert(ap_before(r1[j]@, r1[k]@));
    }
    assert forall|j: int, k: int| 0 <= j < k < m2.len() implies ap_before(#[trigger] m2[j], #[trigger] m2[k]) by {
        assert(ap_before(r2[j]@, r2[k]@));
    }
    assert forall|x: ApModel| m1.contains(x) implies m2.contains(x) by {
        let k = choose|k: int| 0 <= k < m1.len() && m1[k] == x;
        assert(r1[k]@ == x);
        assert(seen(obs, r1[k]@.ssid));
        let q = choose|q: int| 0 <= q < r2.len() && (#[trigger] r2[q])@.ssid == x.ssid;
        assert(m2[q] == x);
    }
    assert forall|x: ApModel| m2.contains(x) implies m1.contains(x) by {
        let k = choose|k: int| 0 <= k < m2.len() && m2[k] == x;
        assert(r2[k]@ == x);
        assert(seen(obs, r2[k]@.ssid));
        let q = choose|q: int| 0 <= q < r1.len() && (#[trigger] r1[q])@.ssid == x.ssid;
        assert(m1[q] == x);
    }
    lemma_sorted_models_equal(m1, m2);
}

} // verus!
