//! Text the search prints: numbers with thousands separators, and chains of
//! layers in asterisk notation.
use vstd::prelude::*;
use crate::layer::same_layer;
use crate::layer::spec_comparator;
use crate::unique_vec::{config_layer, config_table, is_first_config, larger};

verus! {

/// The decimal digit characters.
pub const DIGIT_CHARS: [char; 10] = ['0', '1', '2', '3', '4', '5', '6', '7', '8', '9'];

/// The decimal representation of `n`, without leading zeros.
pub open spec fn decimal(n: nat) -> Seq<char>
    decreases n,
{
    if n < 10 {
        seq![DIGIT_CHARS@[n as int]]
    } else {
        decimal(n / 10).push(DIGIT_CHARS@[(n % 10) as int])
    }
}

/// The first `j` characters of `d` with a comma before each character that
/// has a positive multiple of three characters after it.
pub open spec fn grouped(d: Seq<char>, j: int) -> Seq<char>
    decreases j,
{
    if j <= 0 {
        Seq::empty()
    } else if j - 1 > 0 && (d.len() - (j - 1)) % 3 == 0 {
        grouped(d, j - 1) + seq![',', d[j - 1]]
    } else {
        grouped(d, j - 1).push(d[j - 1])
    }
}

/// `n` in decimal with thousands separators.
pub open spec fn spec_thousands(n: nat) -> Seq<char> {
    grouped(decimal(n), decimal(n).len() as int)
}

/// The digits of a number hold no comma.
pub proof fn lemma_decimal_has_no_comma(n: nat)
    ensures
        !decimal(n).contains(','),
        decimal(n).len() >= 1,
    decreases n,
{
    if n >= 10 {
        lemma_decimal_has_no_comma(n / 10);
        assert forall|k: int| 0 <= k < decimal(n).len() implies decimal(n)[k] != ',' by {
            if k < decimal(n / 10).len() {
                assert(decimal(n)[k] == decimal(n / 10)[k]);
            }
        }
    }
}

/// Removing the commas that `grouped` inserts gives back the characters.
pub proof fn lemma_grouped_without_commas(d: Seq<char>, j: int)
    requires
        0 <= j <= d.len(),
        !d.contains(','),
    ensures
        grouped(d, j).filter(|c: char| c != ',') == d.take(j),
    decreases j,
{
    if j > 0 {
        lemma_grouped_without_commas(d, j - 1);
        let prev = grouped(d, j - 1);
        let c = d[j - 1];
        assert(c != ',') by {
            if c == ',' {
                assert(d.contains(','));
            }
        }
        assert(d.take(j) =~= d.take(j - 1).push(c));
        let keep = |x: char| x != ',';
        if j - 1 > 0 && (d.len() - (j - 1)) % 3 == 0 {
            let mid = prev.push(',');
            let g = mid.push(c);
            assert(grouped(d, j) =~= g);
            assert(mid.drop_last() =~= prev);
            assert(g.drop_last() =~= mid);
            reveal_with_fuel(Seq::filter, 1);
            assert(mid.filter(keep) == prev.filter(keep));
            assert(g.filter(keep) == mid.filter(keep).push(c));
        } else {
            let g = prev.push(c);
            assert(grouped(d, j) == g);
            assert(g.drop_last() =~= prev);
            reveal_with_fuel(Seq::filter, 1);
            assert(g.filter(keep) == prev.filter(keep).push(c));
        }
    }
}

/// Without its commas, `thousands(n)` is the decimal representation of `n`.
pub proof fn lemma_thousands_digits(n: nat)
    ensures
        spec_thousands(n).filter(|c: char| c != ',') == decimal(n),
{
    lemma_decimal_has_no_comma(n);
    lemma_grouped_without_commas(decimal(n), decimal(n).len() as int);
    assert(decimal(n).take(decimal(n).len() as int) =~= decimal(n));
}

/// `String::from_iter`: the string of the given characters.
#[verifier::external_body]
fn string_of_chars(chars: Vec<char>) -> (s: String)
    ensures
        s@ == chars@,
{
    String::from_iter(chars)
}

/// The decimal digits of `n`.
pub fn decimal_digits(n: usize) -> (digits: Vec<char>)
    ensures
        digits@ == decimal(n as nat),
    decreases n,
{
    if n < 10 {
        let mut digits: Vec<char> = Vec::new();
        digits.push(DIGIT_CHARS[n]);
        assert(digits@ =~= decimal(n as nat));
        digits
    } else {
        let mut digits = decimal_digits(n / 10);
        digits.push(DIGIT_CHARS[n % 10]);
        digits
    }
}

/// Formats `n` with a comma between each group of three digits.
pub fn thousands(n: usize) -> (output: String)
    ensures
        output@ == spec_thousands(n as nat),
{
    let digits = decimal_digits(n);
    let len = digits.len();
    let mut output: Vec<char> = Vec::new();
    let mut count: usize = len;
    for j in 0..len
        invariant
            len == digits@.len(),
            digits@ == decimal(n as nat),
            count == len - j,
            output@ == grouped(digits@, j as int),
    {
        let c = digits[j];
        if count % 3 == 0 && count != len {
            output.push(',');
        }
        output.push(c);
        proof {
            if j > 0 && (len - j) % 3 == 0 {
                assert(output@ =~= grouped(digits@, j as int) + seq![',', c]);
            } else {
                assert(output@ =~= grouped(digits@, j as int).push(c));
            }
        }
        count -= 1;
    }
    string_of_chars(output)
}

/// Configuration `i` in asterisk notation: the first side barrel and the
/// second back barrel, each marked `*` when its comparator subtracts.
pub open spec fn config_text(i: int) -> Seq<char> {
    (if i / 512 == 1 {
        seq!['*']
    } else {
        Seq::empty()
    }) + decimal(((i / 16) % 16) as nat) + seq![','] + (if (i / 256) % 2 == 1 {
        seq!['*']
    } else {
        Seq::empty()
    }) + decimal((i % 16) as nat) + seq![';', ' ']
}

/// The notation of the first configuration that computes `l`, or nothing
/// when no single layer computes it.
pub open spec fn layer_text(l: Seq<i16>) -> Seq<char> {
    if exists|i: int| is_first_config(l, i) {
        config_text(choose|i: int| is_first_config(l, i))
    } else {
        Seq::empty()
    }
}

/// The notation of the first `n` layers of a chain.
pub open spec fn spec_notation(unique: Seq<[i16; 16]>, count: Seq<[usize; 2]>, n: int) -> Seq<char>
    decreases n,
{
    if n <= 0 {
        Seq::empty()
    } else {
        spec_notation(unique, count, n - 1) + layer_text(unique[count[n - 1][0] as int]@)
    }
}

pub proof fn lemma_first_config_unique(l: Seq<i16>, i: int, j: int)
    requires
        is_first_config(l, i),
        is_first_config(l, j),
    ensures
        i == j,
{
    if i < j {
        assert(config_layer(i) != l);
    } else if j < i {
        assert(config_layer(j) != l);
    }
}

/// The notation of the first configuration that computes the table.
fn layer_notation(target: &[i16; 16]) -> (text: Vec<char>)
    ensures
        text@ == layer_text(target@),
{
    let mut i: i16 = 0;
    while i < 1024
        invariant
            0 <= i <= 1024,
            forall|j: int| 0 <= j < i ==> #[trigger] config_layer(j) != target@,
        decreases 1024 - i,
    {
        let mode_a: bool = i / 512 == 1;
        let mode_b: bool = (i / 256) % 2 == 1;
        let a: i16 = (i / 16) % 16;
        let b: i16 = i % 16;
        let current = config_table(i);
        if same_layer(&current, target) {
            let mut text: Vec<char> = Vec::new();
            if mode_a {
                text.push('*');
            }
            let mut a_digits = decimal_digits(a as usize);
            text.append(&mut a_digits);
            text.push(',');
            if mode_b {
                text.push('*');
            }
            let mut b_digits = decimal_digits(b as usize);
            text.append(&mut b_digits);
            text.push(';');
            text.push(' ');
            proof {
                assert(is_first_config(target@, i as int));
                let c = choose|c: int| is_first_config(target@, c);
                lemma_first_config_unique(target@, i as int, c);
                assert(text@ =~= config_text(i as int));
            }
            return text;
        }
        i += 1;
    }
    let text: Vec<char> = Vec::new();
    proof {
        if exists|c: int| is_first_config(target@, c) {
            let c = choose|c: int| is_first_config(target@, c);
            assert(config_layer(c) != target@);
        }
        assert(text@ =~= layer_text(target@));
    }
    text
}

/// The chain `count` in asterisk notation, one `side,side; ` group per layer.
pub fn notation(count: &Vec<[usize; 2]>, unique: &Vec<[i16; 16]>) -> (output: String)
    requires
        forall|k: int| 0 <= k < count.len() ==> (#[trigger] count@[k])[0] < unique.len(),
    ensures
        output@ == spec_notation(unique@, count@, count.len() as int),
{
    let mut output: Vec<char> = Vec::new();
    for c in 0..count.len()
        invariant
            forall|k: int| 0 <= k < count.len() ==> (#[trigger] count@[k])[0] < unique.len(),
            output@ == spec_notation(unique@, count@, c as int),
    {
        let mut text = layer_notation(&unique[count[c][0]]);
        output.append(&mut text);
    }
    string_of_chars(output)
}

/// One side in asterisk notation: `*` when its comparator subtracts, then
/// the barrel's signal strength.
pub open spec fn side_text(subtract: bool, barrel: int) -> Seq<char> {
    (if subtract {
        seq!['*']
    } else {
        Seq::empty()
    }) + decimal(barrel as nat)
}

/// The table of the layer whose first comparator has the input at the back
/// and barrel `a` at the side, whose second comparator has barrel `b` at the
/// back and the input at the side, each subtracting when its mode says so;
/// the layer outputs the larger of the two.
pub open spec fn built_layer(mode_a: bool, a: int, mode_b: bool, b: int) -> Seq<i16> {
    Seq::new(
        16,
        |j: int| larger(spec_comparator(j, a, mode_a), spec_comparator(b, j, mode_b)) as i16,
    )
}

/// The place of a configuration in the order the layers are tried: the
/// first comparator's mode counts 512, the second's 256, then the two
/// barrels as base-16 digits.
pub open spec fn config_index(mode_a: bool, a: int, mode_b: bool, b: int) -> int {
    (if mode_a {
        512int
    } else {
        0int
    }) + (if mode_b {
        256int
    } else {
        0int
    }) + 16 * a + b
}

/// `text`, read as the notation `[*]a,[*]b; ` of one layer, names modes and
/// barrels that build `l`, and no configuration tried before them builds it.
pub open spec fn reads_back_as(
    l: Seq<i16>,
    text: Seq<char>,
    mode_a: bool,
    a: int,
    mode_b: bool,
    b: int,
) -> bool {
    &&& 0 <= a < 16
    &&& 0 <= b < 16
    &&& text == side_text(mode_a, a) + seq![','] + side_text(mode_b, b) + seq![';', ' ']
    &&& built_layer(mode_a, a, mode_b, b) == l
    &&& is_first_config(l, config_index(mode_a, a, mode_b, b))
}

/// The text printed for a table that some layer computes, read back as
/// asterisk notation (a `*` before a number when that comparator subtracts),
/// names the first configuration that builds that very table; a table that
/// no layer computes prints nothing.
pub proof fn lemma_layer_text_reads_back(l: Seq<i16>)
    ensures
        (exists|i: int| 0 <= i < 1024 && #[trigger] config_layer(i) == l) ==> exists|
            mode_a: bool,
            a: int,
            mode_b: bool,
            b: int,
        | #[trigger] reads_back_as(l, layer_text(l), mode_a, a, mode_b, b),
        !(exists|i: int| 0 <= i < 1024 && #[trigger] config_layer(i) == l) ==> layer_text(l)
            == Seq::<char>::empty(),
{
    if exists|i: int| 0 <= i < 1024 && #[trigger] config_layer(i) == l {
        let k = choose|i: int| 0 <= i < 1024 && #[trigger] config_layer(i) == l;
        lemma_first_config_exists(l, k);
        let i = choose|i: int| is_first_config(l, i);
        let mode_a = i / 512 == 1;
        let mode_b = (i / 256) % 2 == 1;
        let a = (i / 16) % 16;
        let b = i % 16;
        assert(config_index(mode_a, a, mode_b, b) == i);
        assert(built_layer(mode_a, a, mode_b, b) =~= config_layer(i));
        assert(layer_text(l) =~= side_text(mode_a, a) + seq![','] + side_text(mode_b, b) + seq![
            ';',
            ' ',
        ]);
        assert(reads_back_as(l, layer_text(l), mode_a, a, mode_b, b));
    } else {
        if exists|i: int| is_first_config(l, i) {
            let i = choose|i: int| is_first_config(l, i);
            assert(0 <= i < 1024 && config_layer(i) == l);
        }
    }
}

/// A table that configuration `k` builds has a first configuration that
/// builds it.
proof fn lemma_first_config_exists(l: Seq<i16>, k: int)
    requires
        0 <= k < 1024,
        config_layer(k) == l,
    ensures
        exists|i: int| is_first_config(l, i),
    decreases k,
{
    if exists|j: int| 0 <= j < k && #[trigger] config_layer(j) == l {
        let j = choose|j: int| 0 <= j < k && #[trigger] config_layer(j) == l;
        lemma_first_config_exists(l, j);
    } else {
        assert(is_first_config(l, k));
    }
}

/// The number a string of decimal digit characters denotes.
pub open spec fn read_decimal(s: Seq<char>) -> int
    decreases s.len(),
{
    if s.len() == 0 {
        0
    } else {
        read_decimal(s.drop_last()) * 10 + (s.last() as int - '0' as int)
    }
}

/// The decimal text of `n` is made of digit characters, starts with a
/// nonzero digit unless `n` is zero, and reads back as `n`.
pub proof fn lemma_decimal_reads_back(n: nat)
    ensures
        forall|k: int| 0 <= k < decimal(n).len() ==> '0' <= #[trigger] decimal(n)[k] <= '9',
        n > 0 ==> decimal(n)[0] != '0',
        read_decimal(decimal(n)) == n,
    decreases n,
{
    assert(DIGIT_CHARS@ =~= seq!['0', '1', '2', '3', '4', '5', '6', '7', '8', '9']);
    let k = (n % 10) as int;
    assert(DIGIT_CHARS@[k] as int - '0' as int == k) by {
        assert('0' as int == 48 && '1' as int == 49 && '2' as int == 50 && '3' as int == 51);
        assert('4' as int == 52 && '5' as int == 53 && '6' as int == 54 && '7' as int == 55);
        assert('8' as int == 56 && '9' as int == 57);
    }
    if n < 10 {
        assert(decimal(n).drop_last() =~= Seq::<char>::empty());
    }
    if n >= 10 {
        lemma_decimal_reads_back(n / 10);
        let d = decimal(n);
        assert(d.drop_last() =~= decimal(n / 10));
        assert forall|k: int| 0 <= k < d.len() implies '0' <= #[trigger] d[k] <= '9' by {
            if k < d.len() - 1 {
                assert(d[k] == decimal(n / 10)[k]);
            }
        }
        assert(d[0] == decimal(n / 10)[0]);
        assert(d.last() == DIGIT_CHARS@[k]);
        assert(read_decimal(d) == read_decimal(d.drop_last()) * 10 + (d.last() as int - '0' as int));
        assert(read_decimal(d) == (n / 10) * 10 + k);
    } else {
        let d = decimal(n);
        assert(d.last() == DIGIT_CHARS@[k]);
        assert(read_decimal(d) == read_decimal(d.drop_last()) * 10 + (d.last() as int - '0' as int));
    }
}

/// The notation of two chains one after the other is the notation of the
/// first followed by that of the second.
pub proof fn lemma_notation_concat(
    unique: Seq<[i16; 16]>,
    c1: Seq<[usize; 2]>,
    c2: Seq<[usize; 2]>,
    n: int,
)
    requires
        0 <= n <= c2.len(),
    ensures
        spec_notation(unique, c1 + c2, c1.len() + n) == spec_notation(unique, c1, c1.len() as int)
            + spec_notation(unique, c2, n),
    decreases n,
{
    if n == 0 {
        lemma_notation_prefix(unique, c1 + c2, c1, c1.len() as int);
        assert(spec_notation(unique, c1, c1.len() as int) + Seq::<char>::empty() =~= spec_notation(
            unique,
            c1,
            c1.len() as int,
        ));
    } else {
        lemma_notation_concat(unique, c1, c2, n - 1);
        assert((c1 + c2)[c1.len() + n - 1] == c2[n - 1]);
        assert(spec_notation(unique, c1 + c2, c1.len() + n) =~= spec_notation(
            unique,
            c1,
            c1.len() as int,
        ) + spec_notation(unique, c2, n));
    }
}

/// The notation of the first `n` layers depends on those layers only.
proof fn lemma_notation_prefix(unique: Seq<[i16; 16]>, c: Seq<[usize; 2]>, w: Seq<[usize; 2]>, n: int)
    requires
        0 <= n <= c.len(),
        n <= w.len(),
        forall|j: int| 0 <= j < n ==> #[trigger] c[j] == w[j],
    ensures
        spec_notation(unique, c, n) == spec_notation(unique, w, n),
    decreases n,
{
    if n > 0 {
        lemma_notation_prefix(unique, c, w, n - 1);
        assert(c[n - 1] == w[n - 1]);
    }
}

/// A chain of one layer prints that layer's text.
pub proof fn lemma_notation_single(unique: Seq<[i16; 16]>, c: Seq<[usize; 2]>)
    requires
        c.len() == 1,
    ensures
        spec_notation(unique, c, 1) == layer_text(unique[c[0][0] as int]@),
{
    assert(spec_notation(unique, c, 0) + layer_text(unique[c[0][0] as int]@) =~= layer_text(
        unique[c[0][0] as int]@,
    ));
}

} // verus!
