//! Named color palettes and the copies a mirror combinator makes.

use vstd::prelude::*;
use crate::color::Color3;
use crate::orient::Axis;
use crate::text::{str_eq, to_owned_string};

verus! {

/// An ordered map from color names to colors.
pub type ColorMap = Vec<(String, Color3)>;

/// The abstract palette: names and colors in order.
pub open spec fn palette_view(m: Seq<(String, Color3)>) -> Seq<(Seq<char>, Color3)> {
    m.map_values(|e: (String, Color3)| (e.0@, e.1))
}

/// Index of the first entry named `k`, or -1.
pub open spec fn key_index(m: Seq<(Seq<char>, Color3)>, k: Seq<char>) -> int
    decreases m.len(),
{
    if m.len() == 0 {
        -1
    } else {
        let i = key_index(m.drop_last(), k);
        if i >= 0 {
            i
        } else if m.last().0 == k {
            m.len() - 1
        } else {
            -1
        }
    }
}

proof fn lemma_key_index(m: Seq<(Seq<char>, Color3)>, k: Seq<char>)
    ensures
        -1 <= key_index(m, k) < m.len(),
        key_index(m, k) >= 0 ==> m[key_index(m, k)].0 == k,
        forall|j: int| 0 <= j < m.len() && (key_index(m, k) < 0 || j < key_index(m, k)) ==> (#[trigger] m[j]).0 != k,
    decreases m.len(),
{
    if m.len() > 0 {
        let p = m.drop_last();
        lemma_key_index(p, k);
        assert forall|j: int| 0 <= j < p.len() implies p[j] == m[j] by {}
    }
}

/// Set the color named `k` (the first entry with that name), or append it.
pub open spec fn set_color(m: Seq<(Seq<char>, Color3)>, k: Seq<char>, v: Color3) -> Seq<(Seq<char>, Color3)> {
    let i = key_index(m, k);
    if i >= 0 {
        m.update(i, (m[i].0, v))
    } else {
        m.push((k, v))
    }
}

/// The child palette with the first `n` parent entries laid over it.
pub open spec fn merge_upto(parent: Seq<(Seq<char>, Color3)>, child: Seq<(Seq<char>, Color3)>, n: int) -> Seq<
    (Seq<char>, Color3),
>
    decreases n,
{
    if n <= 0 {
        child
    } else {
        let m = merge_upto(parent, child, n - 1);
        set_color(m, parent[n - 1].0, parent[n - 1].1)
    }
}

fn find_key(m: &Vec<(String, Color3)>, k: &str) -> (r: Option<usize>)
    ensures
        match r {
            Some(i) => i == key_index(palette_view(m@), k@) && i < m@.len(),
            None => key_index(palette_view(m@), k@) == -1,
        },
{
    let ghost mv = palette_view(m@);
    let mut i: usize = 0;
    while i < m.len()
        invariant
            i <= m@.len(),
            mv == palette_view(m@),
            forall|j: int| 0 <= j < i ==> (#[trigger] mv[j]).0 != k@,
        decreases m@.len() - i,
    {
        assert(mv[i as int].0 == m@[i as int].0@);
        if str_eq(m[i].0.as_str(), k) {
            proof {
                lemma_key_index(mv, k@);
            }
            return Some(i);
        }
        i = i + 1;
    }
    proof {
        lemma_key_index(mv, k@);
    }
    None
}

/// Lay the parent palette over the child's: a parent color replaces the
/// child's color of the same name, and names only the parent has are
/// appended in the parent's order.
pub fn merge_colors(parent: &ColorMap, child: &ColorMap) -> (r: ColorMap)
    ensures
        palette_view(r@) == merge_upto(palette_view(parent@), palette_view(child@), parent@.len() as int),
{
    let ghost pv = palette_view(parent@);
    let mut merged: Vec<(String, Color3)> = Vec::new();
    let mut j: usize = 0;
    while j < child.len()
        invariant
            j <= child@.len(),
            palette_view(merged@) == palette_view(child@).take(j as int),
        decreases child@.len() - j,
    {
        let ghost prev = palette_view(merged@);
        merged.push((to_owned_string(child[j].0.as_str()), child[j].1));
        assert(palette_view(merged@) =~= prev.push((child@[j as int].0@, child@[j as int].1)));
        assert(palette_view(child@).take(j + 1) =~= palette_view(child@).take(j as int).push(
            (child@[j as int].0@, child@[j as int].1),
        ));
        j = j + 1;
    }
    assert(palette_view(child@).take(child@.len() as int) =~= palette_view(child@));
    let mut i: usize = 0;
    while i < parent.len()
        invariant
            i <= parent@.len(),
            pv == palette_view(parent@),
            palette_view(merged@) == merge_upto(pv, palette_view(child@), i as int),
        decreases parent@.len() - i,
    {
        let key = parent[i].0.as_str();
        let val = parent[i].1;
        assert(pv[i as int] == (key@, val));
        let ghost before = palette_view(merged@);
        match find_key(&merged, key) {
            Some(k) => {
                let name = to_owned_string(merged[k].0.as_str());
                merged.set(k, (name, val));
                assert(palette_view(merged@) =~= before.update(k as int, (before[k as int].0, val)));
            },
            None => {
                merged.push((to_owned_string(key), val));
                assert(palette_view(merged@) =~= before.push((key@, val)));
            },
        }
        i = i + 1;
    }
    merged
}

/// The color a name resolves to: its first entry, or grey `Color3(1, 1, 1)`
/// when the palette has no such name.
pub fn resolve_color(name: &str, colors: &ColorMap) -> (r: Color3)
    ensures
        ({
            let i = key_index(palette_view(colors@), name@);
            r == if i >= 0 {
                palette_view(colors@)[i].1
            } else {
                Color3(1, 1, 1)
            }
        }),
{
    match find_key(colors, name) {
        Some(i) => colors[i].1,
        None => Color3(1, 1, 1),
    }
}

// =====================================================================
// Mirror combinations
// =====================================================================

pub open spec fn axis_letter(a: Axis) -> char {
    match a {
        Axis::X => 'x',
        Axis::Y => 'y',
        Axis::Z => 'z',
    }
}

/// Whether bit `i` of `bits` is set.
pub open spec fn bit_set(bits: nat, i: nat) -> bool {
    (bits / vstd::arithmetic::power2::pow2(i)) % 2 == 1
}

/// The axes of `axes` whose bit is set in `bits`, among the first `n`.
pub open spec fn flipped_upto(axes: Seq<Axis>, bits: nat, n: int) -> Seq<Axis>
    decreases n,
{
    if n <= 0 {
        Seq::empty()
    } else {
        let prev = flipped_upto(axes, bits, n - 1);
        if bit_set(bits, (n - 1) as nat) {
            prev.push(axes[n - 1])
        } else {
            prev
        }
    }
}

/// The name suffix of a copy: `m` and the flipped axes' letters, or
/// nothing when no axis is flipped.
pub open spec fn mirror_suffix(flipped: Seq<Axis>) -> Seq<char> {
    if flipped.len() == 0 {
        Seq::empty()
    } else {
        seq!['m'] + flipped.map_values(|a: Axis| axis_letter(a))
    }
}

fn letter_str(a: Axis) -> (r: &'static str)
    ensures
        r@ == seq![axis_letter(a)],
{
    proof {
        reveal_strlit("x");
        reveal_strlit("y");
        reveal_strlit("z");
    }
    match a {
        Axis::X => "x",
        Axis::Y => "y",
        Axis::Z => "z",
    }
}

/// Every subset of the mirror axes, as the axes to flip and the name
/// suffix of that copy: copy `bits` flips axis `i` when bit `i` of
/// `bits` is set; the unflipped copy comes first and has no suffix.
pub fn mirror_combinations(axes: &[Axis]) -> (r: Vec<(Vec<Axis>, String)>)
    requires
        axes@.len() < 64,
    ensures
        r@.len() == vstd::arithmetic::power2::pow2(axes@.len() as nat),
        forall|b: int|
            0 <= b < r@.len() ==> (#[trigger] r@[b]).0@ == flipped_upto(axes@, b as nat, axes@.len() as int)
                && r@[b].1@ == mirror_suffix(flipped_upto(axes@, b as nat, axes@.len() as int)),
{
    let n = axes.len();
    proof {
        vstd::arithmetic::power2::lemma2_to64();
        vstd::arithmetic::power2::lemma2_to64_rest();
        if n < 63 {
            vstd::arithmetic::power2::lemma_pow2_strictly_increases(n as nat, 63);
        }
        assert(vstd::arithmetic::power2::pow2(n as nat) <= vstd::arithmetic::power2::pow2(63));
        let sh = n as u64;
        assert(sh as nat == n as nat);
        assert(vstd::arithmetic::power2::pow2(63) <= u64::MAX);
        assert(1u64 * vstd::arithmetic::power2::pow2(sh as nat) <= u64::MAX);
        vstd::bits::lemma_u64_shl_is_mul(1u64, sh);
    }
    let count: u64 = 1u64 << (n as u64);
    let mut result: Vec<(Vec<Axis>, String)> = Vec::new();
    let mut bits: u64 = 0;
    while bits < count
        invariant
            bits <= count,
            n == axes@.len(),
            n < 64,
            count == vstd::arithmetic::power2::pow2(n as nat),
            result@.len() == bits,
            forall|b: int|
                0 <= b < bits ==> (#[trigger] result@[b]).0@ == flipped_upto(axes@, b as nat, n as int)
                    && result@[b].1@ == mirror_suffix(flipped_upto(axes@, b as nat, n as int)),
        decreases count - bits,
    {
        let mut flipped: Vec<Axis> = Vec::new();
        let mut letters = String::new();
        let mut i: usize = 0;
        let mut rest: u64 = bits;
        proof {
            vstd::arithmetic::power2::lemma2_to64();
            assert((bits as nat) / 1 == bits as nat);
        }
        while i < n
            invariant
                i <= n,
                n == axes@.len(),
                n < 64,
                rest as nat == (bits as nat) / vstd::arithmetic::power2::pow2(i as nat),
                flipped@ == flipped_upto(axes@, bits as nat, i as int),
                letters@ == flipped@.map_values(|a: Axis| axis_letter(a)),
            decreases n - i,
        {
            proof {
                vstd::arithmetic::power2::lemma_pow2_pos(i as nat);
                vstd::arithmetic::power2::lemma_pow2_unfold((i + 1) as nat);
                vstd::arithmetic::div_mod::lemma_div_denominator(
                    bits as int,
                    vstd::arithmetic::power2::pow2(i as nat) as int,
                    2,
                );
                vstd::arithmetic::mul::lemma_mul_is_commutative(vstd::arithmetic::power2::pow2(i as nat) as int, 2);
            }
            if rest % 2 == 1 {
                flipped.push(axes[i]);
                letters.append(letter_str(axes[i]));
                assert(letters@ =~= flipped@.map_values(|a: Axis| axis_letter(a)));
            }
            rest = rest / 2;
            i = i + 1;
        }
        let suffix = if letters.unicode_len() == 0 {
            String::new()
        } else {
            proof {
                reveal_strlit("m");
            }
            let mut s = to_owned_string("m");
            s.append(letters.as_str());
            s
        };
        assert(suffix@ =~= mirror_suffix(flipped@));
        result.push((flipped, suffix));
        bits = bits + 1;
    }
    result
}

} // verus!
