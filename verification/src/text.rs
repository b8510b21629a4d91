//! Text conventions the stores rely on: decimal rendering of integers
//! (ids and timestamps), lexicographic order on strings (listing order),
//! and the `.json` file-name convention.

use vstd::prelude::*;
use vstd::string::StringExecFns;

verus! {

/// The character for one decimal digit.
pub open spec fn digit_char(d: nat) -> char
    recommends
        d < 10,
{
    if d == 0 {
        '0'
    } else if d == 1 {
        '1'
    } else if d == 2 {
        '2'
    } else if d == 3 {
        '3'
    } else if d == 4 {
        '4'
    } else if d == 5 {
        '5'
    } else if d == 6 {
        '6'
    } else if d == 7 {
        '7'
    } else if d == 8 {
        '8'
    } else {
        '9'
    }
}

/// The decimal rendering of `n`, without leading zeros (except for `n == 0`
/// itself, which renders as "0").
pub open spec fn dec_digits(n: nat) -> Seq<char>
    decreases n,
{
    if n < 10 {
        seq![digit_char(n)]
    } else {
        dec_digits(n / 10).push(digit_char(n % 10))
    }
}

proof fn lemma_digit_char_injective(a: nat, b: nat)
    requires
        a < 10,
        b < 10,
        digit_char(a) == digit_char(b),
    ensures
        a == b,
{
}

proof fn lemma_dec_digits_len(n: nat)
    ensures
        dec_digits(n).len() >= 1,
        n >= 10 ==> dec_digits(n).len() >= 2,
    decreases n,
{
    if n >= 10 {
        lemma_dec_digits_len(n / 10);
    }
}

/// Distinct numbers render as distinct digit strings.
pub proof fn lemma_dec_digits_injective(a: nat, b: nat)
    requires
        dec_digits(a) == dec_digits(b),
    ensures
        a == b,
    decreases a + b,
{
    lemma_dec_digits_len(a);
    lemma_dec_digits_len(b);
    if a < 10 && b < 10 {
        assert(dec_digits(a)[0] == digit_char(a));
        assert(dec_digits(b)[0] == digit_char(b));
        lemma_digit_char_injective(a, b);
    } else if a >= 10 && b >= 10 {
        let sa = dec_digits(a / 10);
        let sb = dec_digits(b / 10);
        assert(sa.push(digit_char(a % 10)).last() == digit_char(a % 10));
        assert(sb.push(digit_char(b % 10)).last() == digit_char(b % 10));
        lemma_digit_char_injective(a % 10, b % 10);
        assert(sa =~= sa.push(digit_char(a % 10)).drop_last());
        assert(sb =~= sb.push(digit_char(b % 10)).drop_last());
        lemma_dec_digits_injective(a / 10, b / 10);
    } else {
        // one side has a single digit, the other at least two
        assert(false);
    }
}

/// Appending different suffixes to one prefix gives different strings.
pub proof fn lemma_concat_cancel_left(p: Seq<char>, s1: Seq<char>, s2: Seq<char>)
    requires
        p + s1 == p + s2,
    ensures
        s1 == s2,
{
    assert((p + s1).len() == p.len() + s1.len());
    assert((p + s2).len() == p.len() + s2.len());
    assert(s1.len() == s2.len());
    assert forall|i: int| 0 <= i < s1.len() implies s1[i] == s2[i] by {
        assert((p + s1)[p.len() + i] == s1[i]);
        assert((p + s2)[p.len() + i] == s2[i]);
    }
    assert(s1 =~= s2);
}

/// One decimal digit as a one-character string slice.
fn digit_str(d: u128) -> (r: &'static str)
    requires
        d < 10,
    ensures
        r@ == seq![digit_char(d as nat)],
{
    proof {
        reveal_strlit("0");
        reveal_strlit("1");
        reveal_strlit("2");
        reveal_strlit("3");
        reveal_strlit("4");
        reveal_strlit("5");
        reveal_strlit("6");
        reveal_strlit("7");
        reveal_strlit("8");
        reveal_strlit("9");
    }
    let r: &'static str = if d == 0 {
        "0"
    } else if d == 1 {
        "1"
    } else if d == 2 {
        "2"
    } else if d == 3 {
        "3"
    } else if d == 4 {
        "4"
    } else if d == 5 {
        "5"
    } else if d == 6 {
        "6"
    } else if d == 7 {
        "7"
    } else if d == 8 {
        "8"
    } else {
        "9"
    };
    proof {
        assert(r@ =~= seq![digit_char(d as nat)]);
    }
    r
}

/// Renders `n` in decimal.
pub fn u128_to_string(n: u128) -> (s: String)
    ensures
        s@ == dec_digits(n as nat),
    decreases n,
{
    let d = digit_str(n % 10);
    if n < 10 {
        let s = String::new().concat(d);
        proof {
            assert(s@ =~= dec_digits(n as nat));
        }
        s
    } else {
        let mut s = u128_to_string(n / 10);
        s.append(d);
        proof {
            assert(s@ =~= dec_digits(n as nat));
        }
        s
    }
}

/// Renders `n` in decimal.
pub fn u64_to_string(n: u64) -> (s: String)
    ensures
        s@ == dec_digits(n as nat),
{
    u128_to_string(n as u128)
}

/// Lexicographic order on character sequences, by code point — the order
/// `str` comparison gives, since UTF-8 byte order agrees with code-point
/// order.
pub open spec fn lex_le(a: Seq<char>, b: Seq<char>) -> bool
    decreases a.len(),
{
    if a.len() == 0 {
        true
    } else if b.len() == 0 {
        false
    } else if a[0] != b[0] {
        a[0] < b[0]
    } else {
        lex_le(a.drop_first(), b.drop_first())
    }
}

/// `lex_le` is total: of any two strings, one is at most the other.
pub proof fn lemma_lex_le_total(a: Seq<char>, b: Seq<char>)
    ensures
        lex_le(a, b) || lex_le(b, a),
    decreases a.len(),
{
    if a.len() > 0 && b.len() > 0 && a[0] == b[0] {
        lemma_lex_le_total(a.drop_first(), b.drop_first());
    }
}

/// `lex_le` is transitive.
pub proof fn lemma_lex_le_transitive(a: Seq<char>, b: Seq<char>, c: Seq<char>)
    requires
        lex_le(a, b),
        lex_le(b, c),
    ensures
        lex_le(a, c),
    decreases a.len(),
{
    if a.len() > 0 && b.len() > 0 && c.len() > 0 && a[0] == b[0] && b[0] == c[0] {
        lemma_lex_le_transitive(a.drop_first(), b.drop_first(), c.drop_first());
    }
}

/// Compares two strings in the order `lex_le` describes.
pub fn str_lex_le(a: &str, b: &str) -> (r: bool)
    ensures
        r == lex_le(a@, b@),
{
    let a_len = a.unicode_len();
    let b_len = b.unicode_len();
    let mut i: usize = 0;
    proof {
        assert(a@.skip(0) =~= a@);
        assert(b@.skip(0) =~= b@);
    }
    loop
        invariant
            i <= a_len,
            i <= b_len,
            a_len == a@.len(),
            b_len == b@.len(),
            lex_le(a@, b@) == lex_le(a@.skip(i as int), b@.skip(i as int)),
        decreases a_len - i,
    {
        if i == a_len {
            proof {
                assert(a@.skip(i as int).len() == 0);
            }
            return true;
        }
        if i == b_len {
            proof {
                assert(b@.skip(i as int).len() == 0);
                assert(a@.skip(i as int).len() > 0);
            }
            return false;
        }
        let ca = a.get_char(i);
        let cb = b.get_char(i);
        proof {
            assert(a@.skip(i as int)[0] == a@[i as int]);
            assert(b@.skip(i as int)[0] == b@[i as int]);
        }
        if ca != cb {
            return ca < cb;
        }
        proof {
            assert(a@.skip(i as int).drop_first() =~= a@.skip(i as int + 1));
            assert(b@.skip(i as int).drop_first() =~= b@.skip(i as int + 1));
        }
        i = i + 1;
    }
}

/// Whether a directory entry's name is one a store reads: it ends in
/// `.json` with at least one character before the dot, the rule a path's
/// extension follows (a bare `.json` has no stem and no extension).
pub open spec fn is_json_name(s: Seq<char>) -> bool {
    s.len() > 5 && s.subrange(s.len() - 5, s.len() as int) == ".json"@
}

/// Tests a directory entry's name for the `.json` convention.
pub fn is_json_file_name(name: &str) -> (r: bool)
    ensures
        r == is_json_name(name@),
{
    proof {
        reveal_strlit(".json");
    }
    let len = name.unicode_len();
    if len <= 5 {
        return false;
    }
    let r = name.get_char(len - 5) == '.' && name.get_char(len - 4) == 'j' && name.get_char(
        len - 3,
    ) == 's' && name.get_char(len - 2) == 'o' && name.get_char(len - 1) == 'n';
    proof {
        let sub = name@.subrange(name@.len() - 5, name@.len() as int);
        assert(sub[0] == name@[name@.len() - 5]);
        assert(sub[1] == name@[name@.len() - 4]);
        assert(sub[2] == name@[name@.len() - 3]);
        assert(sub[3] == name@[name@.len() - 2]);
        assert(sub[4] == name@[name@.len() - 1]);
        if r {
            assert(sub =~= ".json"@);
        } else {
            if sub == ".json"@ {
                assert(sub[0] == '.' && sub[1] == 'j' && sub[2] == 's' && sub[3] == 'o' && sub[4]
                    == 'n');
                assert(false);
            }
        }
    }
    r
}

/// The file a record with this id lives in: `<id>.json`.
pub fn record_file_name(id: &str) -> (r: String)
    ensures
        r@ == id@ + ".json"@,
{
    let mut s = String::new().concat(id);
    s.append(".json");
    proof {
        assert(s@ =~= id@ + ".json"@);
    }
    s
}

/// A record file's name carries the `.json` convention whenever the id is
/// nonempty.
pub proof fn lemma_record_file_name_is_json(id: Seq<char>)
    requires
        id.len() >= 1,
    ensures
        is_json_name(id + ".json"@),
{
    reveal_strlit(".json");
    let s = id + ".json"@;
    assert(s.subrange(s.len() - 5, s.len() as int) =~= ".json"@);
}

} // verus!
