//! Filename pairing rules for batch imports. Both rules read a normalized
//! file stem (lower-case, extension dropped, separators turned into `-`), which
//! the caller derives from the file name.

use vstd::prelude::*;
use crate::text::{owned, push_char, push_str, str_eq};

verus! {

pub open spec fn ends_with(s: Seq<char>, suffix: Seq<char>) -> bool {
    suffix.len() <= s.len() && s.subrange(s.len() - suffix.len(), s.len() as int) == suffix
}

pub open spec fn starts_with(s: Seq<char>, prefix: Seq<char>) -> bool {
    prefix.len() <= s.len() && s.subrange(0, prefix.len() as int) == prefix
}

pub open spec fn is_ascii_digit(c: char) -> bool {
    '0' <= c && c <= '9'
}

/// The device-role suffixes, tried in this order.
pub open spec fn role_suffixes() -> Seq<Seq<char>> {
    seq!["-transfer"@, "-output"@, "-id-vg"@, "-id-vd"@, "-idvg"@, "-idvd"@]
}

/// Index of the first role suffix that `key` ends with, searching from `from`.
pub open spec fn first_role_suffix(key: Seq<char>, from: int) -> Option<int>
    decreases 6 - from,
{
    if from < 0 || from >= 6 {
        None
    } else if ends_with(key, role_suffixes()[from]) {
        Some(from)
    } else {
        first_role_suffix(key, from + 1)
    }
}

/// The device a file belongs to, from its normalized stem: the stem without its
/// first matching role suffix; else without a trailing `o` that follows a
/// digit (`2-6o` is the output of `2-6`); else the stem itself.
pub open spec fn device_base(key: Seq<char>) -> Seq<char> {
    match first_role_suffix(key, 0) {
        Some(i) => key.take(key.len() - role_suffixes()[i].len()),
        None => if key.len() >= 2 && key.last() == 'o' && is_ascii_digit(key[key.len() - 2]) {
            key.drop_last()
        } else {
            key
        },
    }
}

/// No role suffix ends in `o`, so a stem ending in `o` has none.
proof fn lemma_o_has_no_role_suffix(key: Seq<char>, from: int)
    requires
        key.len() > 0,
        key.last() == 'o',
        0 <= from <= 6,
    ensures
        first_role_suffix(key, from) is None,
    decreases 6 - from,
{
    reveal_strlit("-transfer");
    reveal_strlit("-output");
    reveal_strlit("-id-vg");
    reveal_strlit("-id-vd");
    reveal_strlit("-idvg");
    reveal_strlit("-idvd");
    if from < 6 {
        let suffix = role_suffixes()[from];
        if ends_with(key, suffix) {
            let n = key.len() as int;
            assert(key.subrange(n - suffix.len(), n)[suffix.len() - 1] == key[n - 1]);
            assert(suffix[suffix.len() - 1] != 'o');
        }
        lemma_o_has_no_role_suffix(key, from + 1);
    }
}

/// An output file named after its device with an `o` appended pairs with
/// that device exactly when the device name ends in a digit (`2-6o` is the
/// output of `2-6`); after any other character the `o` belongs to the name
/// (`2-radio` stays `2-radio`).
pub proof fn law_output_o_follows_a_digit(k: Seq<char>)
    requires
        k.len() > 0,
    ensures
        is_ascii_digit(k.last()) ==> device_base(k + seq!['o']) == k,
        !is_ascii_digit(k.last()) ==> device_base(k + seq!['o']) == k + seq!['o'],
{
    let key = k + seq!['o'];
    assert(key.last() == 'o');
    lemma_o_has_no_role_suffix(key, 0);
    assert(key[key.len() - 2] == k.last());
    assert(key.drop_last() =~= k);
}

/// A stem that ends in neither a role suffix nor an `o` names its device
/// as it stands.
pub proof fn law_plain_stem_is_its_own_device(key: Seq<char>)
    requires
        first_role_suffix(key, 0) is None,
        key.len() == 0 || key.last() != 'o',
    ensures
        device_base(key) == key,
{
}

/// `Some` of `s` without `suffix` when `s` ends with it.
pub fn strip_suffix(s: &str, suffix: &str) -> (r: Option<String>)
    ensures
        r is Some <==> ends_with(s@, suffix@),
        r matches Some(t) ==> t@ == s@.take(s@.len() - suffix@.len()),
{
    let n = s.unicode_len();
    let m = suffix.unicode_len();
    if m > n {
        return None;
    }
    let start = n - m;
    let mut j: usize = 0;
    while j < m
        invariant
            n == s@.len(),
            m == suffix@.len(),
            start == n - m,
            j <= m,
            forall|q: int| 0 <= q < j ==> s@[start + q] == suffix@[q],
        decreases m - j,
    {
        if s.get_char(start + j) != suffix.get_char(j) {
            assert(s@.subrange(start as int, n as int)[j as int] != suffix@[j as int]);
            return None;
        }
        j = j + 1;
    }
    assert(s@.subrange(start as int, n as int) =~= suffix@);
    let t = prefix_of(s, start);
    Some(t)
}

/// The first `k` characters of `s`.
pub fn prefix_of(s: &str, k: usize) -> (r: String)
    requires
        k <= s@.len(),
    ensures
        r@ == s@.take(k as int),
{
    let mut t = String::new();
    let mut i: usize = 0;
    while i < k
        invariant
            k <= s@.len(),
            i <= k,
            t@ == s@.take(i as int),
        decreases k - i,
    {
        let c = s.get_char(i);
        push_char(&mut t, c);
        assert(s@.take(i + 1) =~= s@.take(i as int).push(c));
        i = i + 1;
    }
    t
}

fn role_suffix(i: usize) -> (r: &'static str)
    requires
        i < 6,
    ensures
        r@ == role_suffixes()[i as int],
{
    proof {
        reveal_strlit("-transfer");
        reveal_strlit("-output");
        reveal_strlit("-id-vg");
        reveal_strlit("-id-vd");
        reveal_strlit("-idvg");
        reveal_strlit("-idvd");
    }
    if i == 0 {
        "-transfer"
    } else if i == 1 {
        "-output"
    } else if i == 2 {
        "-id-vg"
    } else if i == 3 {
        "-id-vd"
    } else if i == 4 {
        "-idvg"
    } else {
        "-idvd"
    }
}

/// The device a file belongs to, from its normalized stem.
pub fn device_base_name(key: &str) -> (r: String)
    ensures
        r@ == device_base(key@),
{
    let mut i: usize = 0;
    while i < 6
        invariant
            i <= 6,
            first_role_suffix(key@, 0) == first_role_suffix(key@, i as int),
        decreases 6 - i,
    {
        let suffix = role_suffix(i);
        match strip_suffix(key, suffix) {
            Some(base) => {
                return base;
            },
            None => {},
        }
        i = i + 1;
    }
    assert(first_role_suffix(key@, 0) is None);
    let n = key.unicode_len();
    if n >= 2 && key.get_char(n - 1) == 'o' {
        let c = key.get_char(n - 2);
        if '0' <= c && c <= '9' {
            let r = prefix_of(key, n - 1);
            assert(key@.take(n - 1) =~= key@.drop_last());
            return r;
        }
    }
    owned(key)
}

// ---------------------------------------------------------------------------
// DIBL pairing
// ---------------------------------------------------------------------------

/// `s` split at every `-` (an empty text gives one empty part).
pub open spec fn split_dash(s: Seq<char>) -> Seq<Seq<char>>
    decreases s.len(),
{
    if s.len() == 0 {
        seq![Seq::<char>::empty()]
    } else {
        let p = split_dash(s.drop_last());
        if s.last() == '-' {
            p.push(Seq::<char>::empty())
        } else {
            p.update(p.len() - 1, p.last().push(s.last()))
        }
    }
}

/// The parts joined with `-` between consecutive parts.
pub open spec fn join_dash(parts: Seq<Seq<char>>) -> Seq<char>
    decreases parts.len(),
{
    if parts.len() == 0 {
        Seq::<char>::empty()
    } else if parts.len() == 1 {
        parts[0]
    } else {
        join_dash(parts.drop_last()) + seq!['-'] + parts.last()
    }
}

/// A bias-role token: `vd` followed by a non-empty run of digits and dots,
/// with one optional trailing `v` (`vd40`, `vd2v`, `vd0.1v`).
pub open spec fn vd_bias(t: Seq<char>) -> bool {
    &&& starts_with(t, "vd"@)
    &&& bias_core(t).len() > 0
    &&& forall|i: int|
        0 <= i < bias_core(t).len() ==> is_ascii_digit(#[trigger] bias_core(t)[i])
            || bias_core(t)[i] == '.'
}

/// The characters after `vd`, without one trailing `v`.
pub open spec fn bias_core(t: Seq<char>) -> Seq<char> {
    let rest = t.skip(2);
    if rest.len() > 0 && rest.last() == 'v' {
        rest.drop_last()
    } else {
        rest
    }
}

/// Tokens that name the measurement role rather than the device.
pub open spec fn dibl_role(t: Seq<char>) -> bool {
    t == "high"@ || t == "low"@ || vd_bias(t)
}

pub open spec fn not_role() -> spec_fn(Seq<char>) -> bool {
    |t: Seq<char>| !dibl_role(t)
}

/// `s` without its trailing `-` characters.
pub open spec fn trim_trailing_dashes(s: Seq<char>) -> Seq<char>
    decreases s.len(),
{
    if s.len() > 0 && s.last() == '-' {
        trim_trailing_dashes(s.drop_last())
    } else {
        s
    }
}

/// `s` cut at its first `;` (the instrument's timestamp), trailing dashes
/// dropped; `s` itself when it has no `;`.
pub open spec fn cut_timestamp(s: Seq<char>) -> Seq<char> {
    if exists|i: int| 0 <= i < s.len() && s[i] == ';' {
        let p = choose|p: int|
            0 <= p < s.len() && s[p] == ';' && forall|q: int| 0 <= q < p ==> s[q] != ';';
        trim_trailing_dashes(s.take(p))
    } else {
        s
    }
}

/// The key that pairs the two bias measurements of one device: the stem cut at
/// its timestamp with every role token removed; the cut stem when nothing else
/// is left.
pub open spec fn dibl_key(stem: Seq<char>) -> Seq<char> {
    let key = cut_timestamp(stem);
    let stripped = join_dash(split_dash(key).filter(not_role()));
    if stripped.len() == 0 {
        key
    } else {
        stripped
    }
}

/// Whether `token` names a drain bias such as `vd40` or `vd2v`.
pub fn vd_bias_token(token: &str) -> (r: bool)
    ensures
        r == vd_bias(token@),
{
    let n = token.unicode_len();
    proof {
        reveal_strlit("vd");
    }
    if n < 2 || token.get_char(0) != 'v' || token.get_char(1) != 'd' {
        proof {
            if n >= 2 {
                assert("vd"@[0] == 'v' && "vd"@[1] == 'd');
                if starts_with(token@, "vd"@) {
                    assert(token@.subrange(0, 2)[0] == token@[0]);
                    assert(token@.subrange(0, 2)[1] == token@[1]);
                }
            }
        }
        return false;
    }
    assert(token@.subrange(0, 2) =~= "vd"@);
    let end: usize = if n > 2 && token.get_char(n - 1) == 'v' {
        n - 1
    } else {
        n
    };
    let ghost core = bias_core(token@);
    assert(core =~= token@.subrange(2, end as int));
    if end <= 2 {
        assert(core.len() == 0);
        return false;
    }
    let mut i: usize = 2;
    while i < end
        invariant
            2 <= i <= end,
            end <= n,
            n == token@.len(),
            core == token@.subrange(2, end as int),
            core == bias_core(token@),
            starts_with(token@, "vd"@),
            forall|q: int| 0 <= q < i - 2 ==> is_ascii_digit(#[trigger] core[q]) || core[q] == '.',
        decreases end - i,
    {
        let c = token.get_char(i);
        if !(('0' <= c && c <= '9') || c == '.') {
            assert(core[i - 2] == c);
            return false;
        }
        i = i + 1;
    }
    true
}

/// Whether `token` names a measurement role (`high`, `low`, or a bias).
pub fn dibl_role_token(token: &str) -> (r: bool)
    ensures
        r == dibl_role(token@),
{
    proof {
        reveal_strlit("high");
        reveal_strlit("low");
    }
    str_eq(token, "high") || str_eq(token, "low") || vd_bias_token(token)
}

/// `s` without trailing dashes, as an owned text.
fn trimmed_of_dashes(s: &str, k: usize) -> (r: String)
    requires
        k <= s@.len(),
    ensures
        r@ == trim_trailing_dashes(s@.take(k as int)),
{
    let mut end = k;
    while end > 0 && s.get_char(end - 1) == '-'
        invariant
            end <= k <= s@.len(),
            trim_trailing_dashes(s@.take(k as int)) == trim_trailing_dashes(s@.take(end as int)),
        decreases end,
    {
        assert(s@.take(end as int).drop_last() =~= s@.take(end - 1));
        end = end - 1;
    }
    prefix_of(s, end)
}

/// `s` cut at its first `;` with trailing dashes dropped.
pub fn cut_at_timestamp(s: &str) -> (r: String)
    ensures
        r@ == cut_timestamp(s@),
{
    let n = s.unicode_len();
    let mut i: usize = 0;
    while i < n
        invariant
            n == s@.len(),
            i <= n,
            forall|q: int| 0 <= q < i ==> s@[q] != ';',
        decreases n - i,
    {
        if s.get_char(i) == ';' {
            proof {
                let p = choose|p: int|
                    0 <= p < s@.len() && s@[p] == ';' && forall|q: int| 0 <= q < p ==> s@[q] != ';';
                assert(p == i as int) by {
                    if p < i {
                        assert(s@[p] != ';');
                    } else if p > i {
                        assert(s@[i as int] != ';');
                    }
                }
            }
            return trimmed_of_dashes(s, i);
        }
        i = i + 1;
    }
    owned(s)
}

/// `split_dash` of the characters scanned so far.
proof fn lemma_split_step(s: Seq<char>, i: int)
    requires
        0 <= i < s.len(),
    ensures
        split_dash(s.take(i + 1)) == if s[i] == '-' {
            split_dash(s.take(i)).push(Seq::<char>::empty())
        } else {
            let p = split_dash(s.take(i));
            p.update(p.len() - 1, p.last().push(s[i]))
        },
{
    assert(s.take(i + 1).drop_last() =~= s.take(i));
}

proof fn lemma_split_nonempty(s: Seq<char>)
    ensures
        split_dash(s).len() >= 1,
    decreases s.len(),
{
    if s.len() > 0 {
        lemma_split_nonempty(s.drop_last());
    }
}

/// The `-`-separated parts of `s`.
pub fn split_parts(s: &str) -> (r: Vec<String>)
    ensures
        r@.len() == split_dash(s@).len(),
        forall|i: int| 0 <= i < r@.len() ==> (#[trigger] r@[i])@ == split_dash(s@)[i],
{
    let n = s.unicode_len();
    let mut parts: Vec<String> = Vec::new();
    let mut cur = String::new();
    let mut i: usize = 0;
    proof {
        assert(s@.take(0) =~= Seq::<char>::empty());
    }
    while i < n
        invariant
            n == s@.len(),
            i <= n,
            parts@.len() + 1 == split_dash(s@.take(i as int)).len(),
            forall|j: int| 0 <= j < parts@.len() ==> (#[trigger] parts@[j])@ == split_dash(
                s@.take(i as int),
            )[j],
            cur@ == split_dash(s@.take(i as int)).last(),
        decreases n - i,
    {
        let c = s.get_char(i);
        proof {
            lemma_split_step(s@, i as int);
            lemma_split_nonempty(s@.take(i as int));
        }
        if c == '-' {
            let mut done = String::new();
            std::mem::swap(&mut done, &mut cur);
            parts.push(done);
        } else {
            push_char(&mut cur, c);
        }
        i = i + 1;
    }
    proof {
        assert(s@.take(n as int) =~= s@);
    }
    parts.push(cur);
    parts
}

/// The parts that are not measurement-role tokens, in order.
pub fn device_parts(parts: &Vec<String>) -> (r: Vec<String>)
    ensures
        r@.len() == parts@.map_values(|p: String| p@).filter(not_role()).len(),
        forall|i: int|
            0 <= i < r@.len() ==> (#[trigger] r@[i])@ == parts@.map_values(|p: String| p@).filter(
                not_role(),
            )[i],
{
    let ghost all = parts@.map_values(|p: String| p@);
    let mut out: Vec<String> = Vec::new();
    let mut i: usize = 0;
    proof {
        assert(all.take(0).filter(not_role()) =~= Seq::<Seq<char>>::empty()) by {
            reveal(Seq::filter);
        }
    }
    while i < parts.len()
        invariant
            all == parts@.map_values(|p: String| p@),
            i <= parts@.len(),
            out@.len() == all.take(i as int).filter(not_role()).len(),
            forall|j: int| 0 <= j < out@.len() ==> (#[trigger] out@[j])@ == all.take(
                i as int,
            ).filter(not_role())[j],
        decreases parts@.len() - i,
    {
        let p = &parts[i];
        proof {
            assert(all.take(i + 1) =~= all.take(i as int).push(all[i as int]));
            all.take(i as int).lemma_filter_push(all[i as int], not_role());
        }
        if !dibl_role_token(p.as_str()) {
            out.push(p.clone());
        }
        i = i + 1;
    }
    proof {
        assert(all.take(parts@.len() as int) =~= all);
    }
    out
}

/// The parts joined with `-`.
pub fn join_parts(parts: &Vec<String>) -> (r: String)
    ensures
        r@ == join_dash(parts@.map_values(|p: String| p@)),
{
    let ghost all = parts@.map_values(|p: String| p@);
    let mut out = String::new();
    let mut i: usize = 0;
    proof {
        assert(all.take(0) =~= Seq::<Seq<char>>::empty());
    }
    while i < parts.len()
        invariant
            all == parts@.map_values(|p: String| p@),
            i <= parts@.len(),
            out@ == join_dash(all.take(i as int)),
        decreases parts@.len() - i,
    {
        proof {
            assert(all.take(i + 1).drop_last() =~= all.take(i as int));
        }
        if i > 0 {
            push_char(&mut out, '-');
        }
        push_str(&mut out, parts[i].as_str());
        proof {
            if i == 0 {
                assert(all.take(1) =~= seq![all[0]]);
            }
        }
        i = i + 1;
    }
    proof {
        assert(all.take(parts@.len() as int) =~= all);
    }
    out
}

/// The DIBL pairing key of a normalized file stem.
pub fn dibl_pair_key(stem: &str) -> (r: String)
    ensures
        r@ == dibl_key(stem@),
{
    let key = cut_at_timestamp(stem);
    let parts = split_parts(key.as_str());
    proof {
        assert(parts@.map_values(|p: String| p@) =~= split_dash(key@));
    }
    let kept = device_parts(&parts);
    proof {
        assert(kept@.map_values(|p: String| p@) =~= split_dash(key@).filter(not_role()));
    }
    let stripped = join_parts(&kept);
    if stripped.unicode_len() == 0 {
        key
    } else {
        stripped
    }
}

} // verus!
