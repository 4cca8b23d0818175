//! The portable form of a configuration: a single JSON document of the shape
//! `{"version":…,"hostname":"…","services":[{"id","name","type","port","txt",
//! "enabled"}…]}`.  Rendering is specified exactly, character for character,
//! by `spec_render`; parsing accepts documents of that shape.

use vstd::prelude::*;

use crate::models::{txt_view, AppConfig, ConfigModel, ServiceConfig, SvcModel};
use crate::text::chars_of;

verus! {

/// The character for one decimal digit.
pub open spec fn digit_char(d: nat) -> char {
    if d == 0 {
        '0'
    } else if d == 1 {
        '1'
    } else if d == 2 {
        '2'
    } else if d == 3 {
        '3'
    } else if d == 4 {
        '4'
    } else if d == 5 {
        '5'
    } else if d == 6 {
        '6'
    } else if d == 7 {
        '7'
    } else if d == 8 {
        '8'
    } else {
        '9'
    }
}

/// The decimal rendering of a number, most significant digit first, no
/// leading zeros.
pub open spec fn spec_dec(n: nat) -> Seq<char>
    decreases n,
{
    if n < 10 {
        seq![digit_char(n)]
    } else {
        spec_dec(n / 10).push(digit_char(n % 10))
    }
}

/// The character for one hexadecimal digit.
pub open spec fn hex_char(d: nat) -> char {
    if d < 10 {
        digit_char(d)
    } else if d == 10 {
        'a'
    } else if d == 11 {
        'b'
    } else if d == 12 {
        'c'
    } else if d == 13 {
        'd'
    } else if d == 14 {
        'e'
    } else {
        'f'
    }
}

/// The escaped form of one character inside a JSON string.
pub open spec fn esc_char(c: char) -> Seq<char> {
    if c == '"' {
        "\\\""@
    } else if c == '\\' {
        "\\\\"@
    } else if c == '\n' {
        "\\n"@
    } else if c == '\r' {
        "\\r"@
    } else if c == '\t' {
        "\\t"@
    } else if (c as u32) < 32 {
        "\\u00"@ + seq![hex_char((c as u32 / 16) as nat), hex_char((c as u32 % 16) as nat)]
    } else {
        seq![c]
    }
}

/// The escaped form of a character sequence.
pub open spec fn esc(s: Seq<char>) -> Seq<char>
    decreases s.len(),
{
    if s.len() == 0 {
        Seq::empty()
    } else {
        esc(s.drop_last()) + esc_char(s.last())
    }
}

/// A JSON string: quote, escaped characters, quote.
pub open spec fn jstr(s: Seq<char>) -> Seq<char> {
    seq!['"'] + esc(s) + seq!['"']
}

/// One rendered metadata pair.
pub open spec fn render_pair(p: (Seq<char>, Seq<char>)) -> Seq<char> {
    jstr(p.0) + seq![':'] + jstr(p.1)
}

/// The comma-separated metadata pairs.
pub open spec fn render_pairs(t: Seq<(Seq<char>, Seq<char>)>) -> Seq<char>
    decreases t.len(),
{
    if t.len() == 0 {
        Seq::empty()
    } else if t.len() == 1 {
        render_pair(t[0])
    } else {
        render_pairs(t.drop_last()) + seq![','] + render_pair(t.last())
    }
}

/// One rendered service object.
pub open spec fn render_svc(s: SvcModel) -> Seq<char> {
    "{\"id\":"@ + jstr(s.id) + ",\"name\":"@ + jstr(s.name) + ",\"type\":"@ + jstr(s.service_type)
        + ",\"port\":"@ + spec_dec(s.port as nat) + ",\"txt\":{"@ + render_pairs(s.txt)
        + "},\"enabled\":"@ + (if s.enabled {
        "true"@
    } else {
        "false"@
    }) + seq!['}']
}

/// The comma-separated service objects.
pub open spec fn render_svcs(l: Seq<SvcModel>) -> Seq<char>
    decreases l.len(),
{
    if l.len() == 0 {
        Seq::empty()
    } else if l.len() == 1 {
        render_svc(l[0])
    } else {
        render_svcs(l.drop_last()) + seq![','] + render_svc(l.last())
    }
}

/// The rendered configuration document.
pub open spec fn spec_render(c: ConfigModel) -> Seq<char> {
    "{\"version\":"@ + spec_dec(c.version as nat) + ",\"hostname\":"@ + jstr(c.hostname)
        + ",\"services\":["@ + render_svcs(c.services) + "]}"@
}

/// Appends one decimal digit character.
fn push_digit(out: &mut String, d: u64)
    requires
        d < 10,
    ensures
        final(out)@ == old(out)@.push(digit_char(d as nat)),
{
    if d == 0 {
        out.push('0');
    } else if d == 1 {
        out.push('1');
    } else if d == 2 {
        out.push('2');
    } else if d == 3 {
        out.push('3');
    } else if d == 4 {
        out.push('4');
    } else if d == 5 {
        out.push('5');
    } else if d == 6 {
        out.push('6');
    } else if d == 7 {
        out.push('7');
    } else if d == 8 {
        out.push('8');
    } else {
        out.push('9');
    }
}

/// Appends the decimal rendering of a number.
pub fn push_dec(out: &mut String, n: u64)
    ensures
        final(out)@ == old(out)@ + spec_dec(n as nat),
    decreases n,
{
    if n < 10 {
        push_digit(out, n);
        proof {
            assert(old(out)@.push(digit_char(n as nat)) =~= old(out)@ + spec_dec(n as nat));
        }
    } else {
        push_dec(out, n / 10);
        push_digit(out, n % 10);
        proof {
            assert((old(out)@ + spec_dec((n / 10) as nat)).push(digit_char((n % 10) as nat)) =~= old(
                out,
            )@ + spec_dec(n as nat));
        }
    }
}

/// Appends one hexadecimal digit character.
fn push_hex(out: &mut String, d: u64)
    requires
        d < 16,
    ensures
        final(out)@ == old(out)@.push(hex_char(d as nat)),
{
    if d < 10 {
        push_digit(out, d);
    } else if d == 10 {
        out.push('a');
    } else if d == 11 {
        out.push('b');
    } else if d == 12 {
        out.push('c');
    } else if d == 13 {
        out.push('d');
    } else if d == 14 {
        out.push('e');
    } else {
        out.push('f');
    }
}

/// Appends the escaped characters of a string.
fn push_escaped(out: &mut String, s: &String)
    ensures
        final(out)@ == old(out)@ + esc(s@),
{
    let cs = chars_of(s.as_str());
    let n = cs.len();
    let mut i: usize = 0;
    while i < n
        invariant
            n == cs@.len(),
            cs@ == s@,
            i <= n,
            out@ == old(out)@ + esc(cs@.take(i as int)),
        decreases n - i,
    {
        let ghost pre = out@;
        let c = cs[i];
        if c == '"' {
            out.append("\\\"");
        } else if c == '\\' {
            out.append("\\\\");
        } else if c == '\n' {
            out.append("\\n");
        } else if c == '\r' {
            out.append("\\r");
        } else if c == '\t' {
            out.append("\\t");
        } else if (c as u32) < 32 {
            out.append("\\u00");
            push_hex(out, ((c as u32) / 16) as u64);
            push_hex(out, ((c as u32) % 16) as u64);
            proof {
                assert(pre + ("\\u00"@ + seq![
                    hex_char(((c as u32) / 16) as nat),
                    hex_char(((c as u32) % 16) as nat),
                ]) =~= out@);
            }
        } else {
            out.push(c);
            proof {
                assert(pre + seq![c] =~= pre.push(c));
            }
        }
        proof {
            assert(cs@.take(i + 1 as int).drop_last() =~= cs@.take(i as int));
            assert(cs@.take(i + 1 as int).last() == cs@[i as int]);
            assert(out@ =~= pre + esc_char(cs@[i as int]));
            assert(out@ =~= old(out)@ + esc(cs@.take(i + 1 as int)));
        }
        i += 1;
    }
    proof {
        assert(cs@.take(n as int) =~= cs@);
    }
}

/// Appends a JSON string.
fn push_jstr(out: &mut String, s: &String)
    ensures
        final(out)@ == old(out)@ + jstr(s@),
{
    out.push('"');
    push_escaped(out, s);
    out.push('"');
    proof {
        assert(final(out)@ =~= old(out)@ + jstr(s@));
    }
}

/// Appends the rendered metadata object body.
fn push_pairs(out: &mut String, t: &Vec<(String, String)>)
    ensures
        final(out)@ == old(out)@ + render_pairs(crate::models::txt_view(t@)),
{
    let n = t.len();
    let mut i: usize = 0;
    while i < n
        invariant
            n == t@.len(),
            i <= n,
            out@ == old(out)@ + render_pairs(crate::models::txt_view(t@).take(i as int)),
        decreases n - i,
    {
        let ghost pre = out@;
        if i > 0 {
            out.push(',');
        }
        push_jstr(out, &t[i].0);
        out.push(':');
        push_jstr(out, &t[i].1);
        proof {
            let tv = crate::models::txt_view(t@);
            assert(tv.take(i + 1 as int).drop_last() =~= tv.take(i as int));
            assert(tv.take(i + 1 as int).last() == tv[i as int]);
            assert(tv[i as int] == (t@[i as int].0@, t@[i as int].1@));
            if i > 0 {
                assert(out@ =~= pre + seq![','] + render_pair(tv[i as int]));
                assert(out@ =~= old(out)@ + render_pairs(tv.take(i + 1 as int)));
            } else {
                assert(out@ =~= pre + render_pair(tv[i as int]));
                assert(out@ =~= old(out)@ + render_pairs(tv.take(i + 1 as int)));
            }
        }
        i += 1;
    }
    proof {
        assert(crate::models::txt_view(t@).take(n as int) =~= crate::models::txt_view(t@));
    }
}

/// Appends one rendered service object.
fn push_svc(out: &mut String, s: &ServiceConfig)
    ensures
        final(out)@ == old(out)@ + render_svc(s@),
{
    out.append("{\"id\":");
    push_jstr(out, &s.id);
    out.append(",\"name\":");
    push_jstr(out, &s.name);
    out.append(",\"type\":");
    push_jstr(out, &s.service_type);
    out.append(",\"port\":");
    push_dec(out, s.port as u64);
    out.append(",\"txt\":{");
    push_pairs(out, &s.txt);
    out.append("},\"enabled\":");
    if s.enabled {
        out.append("true");
    } else {
        out.append("false");
    }
    out.push('}');
    proof {
        assert(final(out)@ =~= old(out)@ + render_svc(s@));
    }
}

/// The fragment stands at the position in the text.
pub open spec fn frag_at(p: Seq<char>, pos: int, frag: Seq<char>) -> bool {
    &&& 0 <= pos
    &&& pos + frag.len() <= p.len()
    &&& p.subrange(pos, pos + frag.len()) == frag
}

/// A fragment made of two parts stands at a position exactly when the parts
/// stand there in sequence.
pub proof fn lemma_frag_split(p: Seq<char>, pos: int, a: Seq<char>, b: Seq<char>)
    requires
        frag_at(p, pos, a + b),
    ensures
        frag_at(p, pos, a),
        frag_at(p, pos + a.len(), b),
{
    let ab = a + b;
    assert forall|i: int| 0 <= i < ab.len() implies p[pos + i] == ab[i] by {
        assert(p.subrange(pos, pos + ab.len())[i] == ab[i]);
    }
    assert forall|i: int| 0 <= i < a.len() implies p.subrange(pos, pos + a.len())[i] == a[i] by {
        assert(p[pos + i] == ab[i]);
        assert(ab[i] == a[i]);
    }
    assert(p.subrange(pos, pos + a.len()) =~= a);
    assert forall|i: int| 0 <= i < b.len() implies p.subrange(
        pos + a.len(),
        pos + a.len() + b.len(),
    )[i] == b[i] by {
        assert(p[pos + a.len() + i] == ab[a.len() + i]);
        assert(ab[a.len() + i] == b[i]);
    }
    assert(p.subrange(pos + a.len(), pos + a.len() + b.len()) =~= b);
}

/// The value a decimal digit character stands for.
pub open spec fn spec_digit(c: char) -> Option<u32> {
    if c == '0' {
        Some(0u32)
    } else if c == '1' {
        Some(1u32)
    } else if c == '2' {
        Some(2u32)
    } else if c == '3' {
        Some(3u32)
    } else if c == '4' {
        Some(4u32)
    } else if c == '5' {
        Some(5u32)
    } else if c == '6' {
        Some(6u32)
    } else if c == '7' {
        Some(7u32)
    } else if c == '8' {
        Some(8u32)
    } else if c == '9' {
        Some(9u32)
    } else {
        None
    }
}

/// The value a hexadecimal digit character stands for.
pub open spec fn spec_hex(c: char) -> Option<u32> {
    match spec_digit(c) {
        Some(d) => Some(d),
        None => if c == 'a' || c == 'A' {
            Some(10u32)
        } else if c == 'b' || c == 'B' {
            Some(11u32)
        } else if c == 'c' || c == 'C' {
            Some(12u32)
        } else if c == 'd' || c == 'D' {
            Some(13u32)
        } else if c == 'e' || c == 'E' {
            Some(14u32)
        } else if c == 'f' || c == 'F' {
            Some(15u32)
        } else {
            None
        },
    }
}

/// Digit characters carry their digit's value.
pub proof fn lemma_digit_char_val(d: nat)
    requires
        d < 10,
    ensures
        spec_digit(digit_char(d)) == Some(d as u32),
{
}

/// Hexadecimal digit characters carry their digit's value.
pub proof fn lemma_hex_char_val(d: nat)
    requires
        d < 16,
    ensures
        spec_hex(hex_char(d)) == Some(d as u32),
{
    if d < 10 {
        lemma_digit_char_val(d);
    }
}

/// The number a digit sequence stands for, most significant digit first.
pub open spec fn num_of(ds: Seq<char>) -> nat
    decreases ds.len(),
{
    if ds.len() == 0 {
        0
    } else {
        num_of(ds.drop_last()) * 10 + (match spec_digit(ds.last()) {
            Some(d) => d as nat,
            None => 0,
        })
    }
}

/// A decimal rendering is nonempty, made of digits, and stands for its
/// number.
pub proof fn lemma_dec_num(n: nat)
    ensures
        spec_dec(n).len() >= 1,
        num_of(spec_dec(n)) == n,
        forall|j: int| 0 <= j < spec_dec(n).len() ==> spec_digit(spec_dec(n)[j]) is Some,
    decreases n,
{
    if n < 10 {
        lemma_digit_char_val(n);
        assert(spec_dec(n).drop_last() =~= Seq::<char>::empty());
        assert(num_of(spec_dec(n).drop_last()) == 0);
        assert(spec_dec(n).last() == digit_char(n));
        assert(num_of(spec_dec(n)) == n);
    } else {
        lemma_dec_num(n / 10);
        lemma_digit_char_val(n % 10);
        assert(spec_dec(n).drop_last() =~= spec_dec(n / 10));
        assert(spec_dec(n).last() == digit_char(n % 10));
        assert(num_of(spec_dec(n)) == (n / 10) * 10 + (n % 10));
        assert((n / 10) * 10 + (n % 10) == n);
        assert forall|j: int| 0 <= j < spec_dec(n).len() implies spec_digit(
            spec_dec(n)[j],
        ) is Some by {
            if j < spec_dec(n).len() - 1 {
                assert(spec_dec(n)[j] == spec_dec(n / 10)[j]);
            }
        }
    }
}

/// A proper prefix of a decimal rendering stands for a number no larger than
/// the whole.
pub proof fn lemma_dec_prefix_bound(n: nat, j: int)
    requires
        0 <= j <= spec_dec(n).len(),
    ensures
        num_of(spec_dec(n).take(j)) <= n,
    decreases n,
{
    lemma_dec_num(n);
    if j == spec_dec(n).len() {
        assert(spec_dec(n).take(j) =~= spec_dec(n));
    } else if n < 10 {
        assert(spec_dec(n).take(j) =~= Seq::<char>::empty());
    } else {
        assert(spec_dec(n).take(j) =~= spec_dec(n / 10).take(j));
        lemma_dec_prefix_bound(n / 10, j);
    }
}

/// Escaping distributes over concatenation.
pub proof fn lemma_esc_cat(a: Seq<char>, b: Seq<char>)
    ensures
        esc(a + b) == esc(a) + esc(b),
    decreases b.len(),
{
    if b.len() == 0 {
        assert(a + b =~= a);
        assert(esc(a) + esc(b) =~= esc(a));
    } else {
        assert((a + b).drop_last() =~= a + b.drop_last());
        assert((a + b).last() == b.last());
        lemma_esc_cat(a, b.drop_last());
        assert(esc(a) + esc(b) =~= (esc(a) + esc(b.drop_last())) + esc_char(b.last()));
    }
}

/// Escaping a sequence is escaping a prefix, then one character, then the
/// rest.
pub proof fn lemma_esc_at(s: Seq<char>, k: int)
    requires
        0 <= k < s.len(),
    ensures
        esc(s) == esc(s.take(k)) + esc_char(s[k]) + esc(s.skip(k + 1)),
{
    assert(s =~= s.take(k) + (seq![s[k]] + s.skip(k + 1)));
    lemma_esc_cat(s.take(k), seq![s[k]] + s.skip(k + 1));
    lemma_esc_cat(seq![s[k]], s.skip(k + 1));
    assert(seq![s[k]].drop_last() =~= Seq::<char>::empty());
    assert(esc(Seq::<char>::empty()) =~= Seq::<char>::empty());
    assert(seq![s[k]].last() == s[k]);
    assert(esc(seq![s[k]]) =~= esc_char(s[k]));
    assert(esc(s) =~= esc(s.take(k)) + esc_char(s[k]) + esc(s.skip(k + 1)));
}

/// The escaped form of one character, class by class: it is never empty,
/// never opens with a quote, opens with a backslash exactly for the escaped
/// classes, and each class's full shape is fixed.
pub proof fn lemma_esc_char_shape(c: char)
    ensures
        esc_char(c).len() >= 1,
        esc_char(c)[0] != '"',
        c == '"' ==> esc_char(c) == seq!['\\', '"'],
        c == '\\' ==> esc_char(c) == seq!['\\', '\\'],
        c == '\n' ==> esc_char(c) == seq!['\\', 'n'],
        c == '\r' ==> esc_char(c) == seq!['\\', 'r'],
        c == '\t' ==> esc_char(c) == seq!['\\', 't'],
        (c != '"' && c != '\\' && c != '\n' && c != '\r' && c != '\t' && (c as u32) < 32)
            ==> esc_char(c) == seq![
            '\\',
            'u',
            '0',
            '0',
            hex_char((c as u32 / 16) as nat),
            hex_char((c as u32 % 16) as nat),
        ],
        (c != '"' && c != '\\' && c != '\n' && c != '\r' && c != '\t' && (c as u32) >= 32)
            ==> esc_char(c) == seq![c],
{
    reveal_strlit("\\\"");
    reveal_strlit("\\\\");
    reveal_strlit("\\n");
    reveal_strlit("\\r");
    reveal_strlit("\\t");
    reveal_strlit("\\u00");
    if c == '"' {
        assert(esc_char(c) =~= seq!['\\', '"']);
    } else if c == '\\' {
        assert(esc_char(c) =~= seq!['\\', '\\']);
    } else if c == '\n' {
        assert(esc_char(c) =~= seq!['\\', 'n']);
    } else if c == '\r' {
        assert(esc_char(c) =~= seq!['\\', 'r']);
    } else if c == '\t' {
        assert(esc_char(c) =~= seq!['\\', 't']);
    } else if (c as u32) < 32 {
        assert(esc_char(c) =~= seq![
            '\\',
            'u',
            '0',
            '0',
            hex_char((c as u32 / 16) as nat),
            hex_char((c as u32 % 16) as nat),
        ]);
    } else {
        assert(esc_char(c) =~= seq![c]);
    }
}

/// Relies on char::from_u32: `Some` exactly for Unicode scalar values (below
/// the surrogate range or above it and below the code-point limit), and the
/// returned character carries the given code.
#[verifier::external_body]
fn char_from_u32(v: u32) -> (r: Option<char>)
    ensures
        r is Some <==> (v < 0xD800 || (0xE000 <= v && v < 0x110000)),
        r is Some ==> r->0 as u32 == v,
{
    char::from_u32(v)
}

/// The value of a decimal digit character.
fn digit_val(c: char) -> (r: Option<u32>)
    ensures
        r == spec_digit(c),
        r is Some ==> r->0 < 10,
{
    if c == '0' {
        Some(0)
    } else if c == '1' {
        Some(1)
    } else if c == '2' {
        Some(2)
    } else if c == '3' {
        Some(3)
    } else if c == '4' {
        Some(4)
    } else if c == '5' {
        Some(5)
    } else if c == '6' {
        Some(6)
    } else if c == '7' {
        Some(7)
    } else if c == '8' {
        Some(8)
    } else if c == '9' {
        Some(9)
    } else {
        None
    }
}

/// The value of a hexadecimal digit character.
fn hex_val(c: char) -> (r: Option<u32>)
    ensures
        r == spec_hex(c),
        r is Some ==> r->0 < 16,
{
    match digit_val(c) {
        Some(d) => Some(d),
        None => {
            if c == 'a' || c == 'A' {
                Some(10)
            } else if c == 'b' || c == 'B' {
                Some(11)
            } else if c == 'c' || c == 'C' {
                Some(12)
            } else if c == 'd' || c == 'D' {
                Some(13)
            } else if c == 'e' || c == 'E' {
                Some(14)
            } else if c == 'f' || c == 'F' {
                Some(15)
            } else {
                None
            }
        },
    }
}

/// Consumes the literal pattern at the position; succeeds exactly when the
/// pattern stands there.
fn match_lit(p: &Vec<char>, pos: usize, pat: &Vec<char>) -> (r: Option<usize>)
    requires
        pos <= p@.len(),
    ensures
        r is Some ==> r->0 == pos + pat@.len() && r->0 <= p@.len(),
        r is Some ==> frag_at(p@, pos as int, pat@),
        frag_at(p@, pos as int, pat@) ==> r is Some,
{
    let m = pat.len();
    if p.len() - pos < m {
        proof {
            assert(!frag_at(p@, pos as int, pat@));
        }
        return None;
    }
    let mut k: usize = 0;
    while k < m
        invariant
            m == pat@.len(),
            pos + m <= p@.len(),
            p@.len() <= usize::MAX,
            k <= m,
            forall|j: int| 0 <= j < k ==> p@[pos + j] == pat@[j],
        decreases m - k,
    {
        if p[pos + k] != pat[k] {
            proof {
                if frag_at(p@, pos as int, pat@) {
                    assert(p@.subrange(pos as int, pos + pat@.len())[k as int] == pat@[k as int]);
                }
            }
            return None;
        }
        k += 1;
    }
    proof {
        assert(p@.subrange(pos as int, pos + pat@.len()) =~= pat@);
    }
    Some(pos + m)
}

/// The escaped fragment of one character of the string stands where the scan
/// is; at the end of the string the closing quote stands there.
pub proof fn lemma_jstr_probe(p: Seq<char>, pos: int, s: Seq<char>, k: int)
    requires
        frag_at(p, pos, jstr(s)),
        0 <= k <= s.len(),
    ensures
        k < s.len() ==> frag_at(p, pos + 1 + esc(s.take(k)).len(), esc_char(s[k])),
        k == s.len() ==> pos + 1 + esc(s.take(k)).len() < p.len() && p[pos + 1 + esc(
            s.take(k),
        ).len()] == '"',
{
    if k < s.len() {
        lemma_esc_at(s, k);
        assert(jstr(s) =~= (seq!['"'] + esc(s.take(k))) + (esc_char(s[k]) + (esc(s.skip(k + 1))
            + seq!['"'])));
        lemma_frag_split(
            p,
            pos,
            seq!['"'] + esc(s.take(k)),
            esc_char(s[k]) + (esc(s.skip(k + 1)) + seq!['"']),
        );
        lemma_frag_split(
            p,
            pos + 1 + esc(s.take(k)).len(),
            esc_char(s[k]),
            esc(s.skip(k + 1)) + seq!['"'],
        );
    } else {
        assert(s.take(k) =~= s);
        assert(jstr(s) =~= (seq!['"'] + esc(s)) + seq!['"']);
        lemma_frag_split(p, pos, seq!['"'] + esc(s), seq!['"']);
        assert(p.subrange(pos + 1 + esc(s).len(), pos + 2 + esc(s).len())[0] == '"');
    }
}

/// The string scan's invariant: against every JSON string standing at the
/// opening position, the characters built so far are exactly the decoded
/// prefix, and the cursor stands past that prefix's escaped form.
pub open spec fn scan_inv(p: Seq<char>, pos: int, out: Seq<char>, i: int) -> bool {
    forall|s: Seq<char>|
        #[trigger] frag_at(p, pos, jstr(s)) ==> {
            &&& out.len() <= s.len()
            &&& s.take(out.len() as int) == out
            &&& i == pos + 1 + esc(out).len()
        }
}

/// Where the scan's cursor stands: on the escaped form of the next character,
/// or on the closing quote.
proof fn lemma_scan_probe(p: Seq<char>, pos: int, out: Seq<char>, i: int)
    requires
        scan_inv(p, pos, out, i),
    ensures
        forall|s: Seq<char>|
            #[trigger] frag_at(p, pos, jstr(s)) ==> {
                &&& (out.len() < s.len() ==> frag_at(p, i, esc_char(s[out.len() as int])))
                &&& (out.len() == s.len() ==> i < p.len() && p[i] == '"')
            },
{
    assert forall|s: Seq<char>| #[trigger] frag_at(p, pos, jstr(s)) implies {
        &&& (out.len() < s.len() ==> frag_at(p, i, esc_char(s[out.len() as int])))
        &&& (out.len() == s.len() ==> i < p.len() && p[i] == '"')
    } by {
        assert(s.take(out.len() as int) == out);
        lemma_jstr_probe(p, pos, s, out.len() as int);
        assert(esc(s.take(out.len() as int)) == esc(out));
    }
}

/// Consuming one decoded character keeps the scan's invariant.
proof fn lemma_scan_push(p: Seq<char>, pos: int, out: Seq<char>, i: int, c2: char, ni: int)
    requires
        scan_inv(p, pos, out, i),
        forall|s: Seq<char>|
            #[trigger] frag_at(p, pos, jstr(s)) ==> (out.len() < s.len() && c2 == s[out.len() as int]
                && ni == i + esc_char(s[out.len() as int]).len()),
    ensures
        scan_inv(p, pos, out.push(c2), ni),
{
    assert forall|s: Seq<char>| #[trigger] frag_at(p, pos, jstr(s)) implies {
        &&& out.push(c2).len() <= s.len()
        &&& s.take(out.push(c2).len() as int) == out.push(c2)
        &&& ni == pos + 1 + esc(out.push(c2)).len()
    } by {
        let k = out.len() as int;
        assert(s.take(k) == out && k < s.len() && c2 == s[k]);
        assert(s.take(k + 1) =~= s.take(k).push(s[k]));
        assert(s.take(k + 1).drop_last() =~= s.take(k));
        assert(s.take(k + 1).last() == s[k]);
        assert(esc(s.take(k + 1)) == esc(s.take(k)) + esc_char(s[k]));
        assert(s.take(k + 1) == out.push(c2));
        assert(esc(out.push(c2)) == esc(out) + esc_char(s[k]));
        assert(i == pos + 1 + esc(out).len());
    }
}

/// Parses one escape form at the position (the backslash included).  The
/// escaped form of any character of an escaped class parses back to exactly
/// that character, consuming exactly its escaped form.
#[verifier::rlimit(100)]
fn parse_escape(p: &Vec<char>, i: usize) -> (r: Option<(char, usize)>)
    requires
        i < p@.len(),
    ensures
        r is Some ==> i < (r->0).1 <= p@.len(),
        forall|c: char|
            #[trigger] frag_at(p@, i as int, esc_char(c)) && esc_char(c).len() >= 2 ==> r == Some(
                (c, (i + esc_char(c).len()) as usize),
            ),
{
    let rem = p.len() - i;
    if rem < 2 {
        proof {
            assert forall|c: char|
                #[trigger] frag_at(p@, i as int, esc_char(c)) && esc_char(c).len()
                    >= 2 implies false by {
                lemma_esc_char_shape(c);
            }
        }
        return None;
    }
    let e = p[i + 1];
    proof {
        assert forall|c: char|
            #[trigger] frag_at(p@, i as int, esc_char(c)) && esc_char(c).len() >= 2 implies p@[i
            + 1] == esc_char(c)[1] by {
            assert(p@.subrange(i as int, i + esc_char(c).len())[1] == esc_char(c)[1]);
        }
    }
    if e == '"' || e == '\\' || e == 'n' || e == 'r' || e == 't' {
        let decoded = if e == '"' {
            '"'
        } else if e == '\\' {
            '\\'
        } else if e == 'n' {
            '\n'
        } else if e == 'r' {
            '\r'
        } else {
            '\t'
        };
        proof {
            assert forall|c: char|
                #[trigger] frag_at(p@, i as int, esc_char(c)) && esc_char(c).len() >= 2 implies (c
                == decoded && esc_char(c).len() == 2) by {
                lemma_esc_char_shape(c);
            }
        }
        Some((decoded, i + 2))
    } else if e == 'u' {
        if rem < 6 {
            proof {
                assert forall|c: char|
                    #[trigger] frag_at(p@, i as int, esc_char(c)) && esc_char(c).len()
                        >= 2 implies false by {
                    lemma_esc_char_shape(c);
                }
            }
            return None;
        }
        proof {
            assert forall|c: char|
                #[trigger] frag_at(p@, i as int, esc_char(c)) && esc_char(c).len() >= 2 implies ((
                c as u32) < 32 && esc_char(c).len() == 6 && p@[i + 2] == '0' && p@[i + 3] == '0'
                && p@[i + 4] == hex_char((c as u32 / 16) as nat) && p@[i + 5] == hex_char(
                    (c as u32 % 16) as nat,
                )) by {
                lemma_esc_char_shape(c);
                let ec = esc_char(c);
                assert(p@.subrange(i as int, i + ec.len())[2] == ec[2]);
                assert(p@.subrange(i as int, i + ec.len())[3] == ec[3]);
                assert(p@.subrange(i as int, i + ec.len())[4] == ec[4]);
                assert(p@.subrange(i as int, i + ec.len())[5] == ec[5]);
            }
        }
        let h1 = match hex_val(p[i + 2]) {
            Some(h) => h,
            None => {
                return None;
            },
        };
        let h2 = match hex_val(p[i + 3]) {
            Some(h) => h,
            None => {
                return None;
            },
        };
        let h3 = match hex_val(p[i + 4]) {
            Some(h) => h,
            None => {
                return None;
            },
        };
        let h4 = match hex_val(p[i + 5]) {
            Some(h) => h,
            None => {
                return None;
            },
        };
        let v = ((h1 * 16 + h2) * 16 + h3) * 16 + h4;
        proof {
            assert forall|c: char|
                #[trigger] frag_at(p@, i as int, esc_char(c)) && esc_char(c).len() >= 2 implies (v
                == c as u32 && v < 32) by {
                assert((c as u32) < 32);
                lemma_hex_char_val(((c as u32) / 16) as nat);
                lemma_hex_char_val(((c as u32) % 16) as nat);
                assert(spec_digit('0') == Some(0u32));
                assert(h1 == 0 && h2 == 0);
                assert(h3 == (c as u32) / 16);
                assert(h4 == (c as u32) % 16);
                assert(((c as u32) / 16) * 16 + ((c as u32) % 16) == c as u32) by {
                    assert(c as u32 == 16 * ((c as u32) / 16) + (c as u32) % 16);
                }
            }
        }
        match char_from_u32(v) {
            Some(c2) => {
                proof {
                    assert forall|c: char|
                        #[trigger] frag_at(p@, i as int, esc_char(c)) && esc_char(c).len()
                            >= 2 implies (c2 == c && (i + esc_char(c).len()) as usize == i
                        + 6) by {
                        assert(c2 as u32 == c as u32);
                        vstd::utf8::char_u32_cast(c2, v);
                        vstd::utf8::char_u32_cast(c, v);
                        assert(c2 == c);
                    }
                }
                Some((c2, i + 6))
            },
            None => {
                proof {
                    assert forall|c: char|
                        #[trigger] frag_at(p@, i as int, esc_char(c)) && esc_char(c).len()
                            >= 2 implies false by {
                        assert(v == c as u32 && v < 32);
                    }
                }
                None
            },
        }
    } else {
        proof {
            assert forall|c: char|
                #[trigger] frag_at(p@, i as int, esc_char(c)) && esc_char(c).len()
                    >= 2 implies false by {
                lemma_esc_char_shape(c);
            }
        }
        None
    }
}

/// Parses a JSON string at the position: a quote, characters with the
/// renderer's escapes, a closing quote.  A rendered JSON string parses back
/// to exactly the characters it was rendered from, consuming exactly its
/// rendered form.
#[verifier::rlimit(100)]
fn parse_string(p: &Vec<char>, pos: usize) -> (r: Option<(String, usize)>)
    requires
        pos <= p@.len(),
    ensures
        r is Some ==> pos < (r->0).1 <= p@.len(),
        forall|s: Seq<char>|
            #[trigger] frag_at(p@, pos as int, jstr(s)) ==> (r is Some && (r->0).0@ == s && (
            r->0).1 == pos + jstr(s).len()),
{
    if pos >= p.len() || p[pos] != '"' {
        proof {
            assert forall|s: Seq<char>| #[trigger] frag_at(p@, pos as int, jstr(s)) implies false by {
                assert(p@.subrange(pos as int, pos + jstr(s).len())[0] == jstr(s)[0]);
                assert(jstr(s)[0] == '"');
            }
        }
        return None;
    }
    let mut i: usize = pos + 1;
    let mut out = String::new();
    proof {
        assert forall|s: Seq<char>| #[trigger] frag_at(p@, pos as int, jstr(s)) implies (out@.len()
            <= s.len() && s.take(out@.len() as int) == out@ && i == pos + 1 + esc(
            out@,
        ).len()) by {
            assert(s.take(0) =~= Seq::<char>::empty());
            assert(out@ =~= Seq::<char>::empty());
        }
    }
    loop
        invariant
            pos < i <= p@.len(),
            scan_inv(p@, pos as int, out@, i as int),
        decreases p@.len() - i,
    {
        let ghost k = out@.len() as int;
        proof {
            lemma_scan_probe(p@, pos as int, out@, i as int);
        }
        if i >= p.len() {
            proof {
                assert forall|s: Seq<char>|
                    #[trigger] frag_at(p@, pos as int, jstr(s)) implies false by {
                    if out@.len() < s.len() {
                        lemma_esc_char_shape(s[k]);
                    }
                }
            }
            return None;
        }
        let c = p[i];
        if c == '"' {
            proof {
                assert forall|s: Seq<char>| #[trigger] frag_at(p@, pos as int, jstr(s)) implies (
                out@ == s && i + 1 == pos + jstr(s).len()) by {
                    if out@.len() < s.len() {
                        lemma_esc_char_shape(s[k]);
                        assert(p@.subrange(i as int, i + esc_char(s[k]).len())[0] == esc_char(
                            s[k],
                        )[0]);
                    }
                    assert(out@.len() == s.len());
                    assert(s.take(out@.len() as int) =~= s);
                }
            }
            return Some((out, i + 1));
        }
        proof {
            assert forall|s: Seq<char>| #[trigger] frag_at(p@, pos as int, jstr(s)) implies (
            out@.len() < s.len() && p@[i as int] == esc_char(s[k])[0] && esc_char(s[k]).len()
                >= 1) by {
                lemma_esc_char_shape(s[k]);
                if out@.len() < s.len() {
                    assert(p@.subrange(i as int, i + esc_char(s[k]).len())[0] == esc_char(
                        s[k],
                    )[0]);
                }
            }
        }
        if c == '\\' {
            match parse_escape(p, i) {
                None => {
                    proof {
                        assert forall|s: Seq<char>|
                            #[trigger] frag_at(p@, pos as int, jstr(s)) implies false by {
                            lemma_esc_char_shape(s[k]);
                        }
                    }
                    return None;
                },
                Some((c2, ni)) => {
                    proof {
                        assert forall|s: Seq<char>|
                            #[trigger] frag_at(p@, pos as int, jstr(s)) implies (out@.len()
                            < s.len() && c2 == s[k] && ni == i + esc_char(s[k]).len()) by {
                            lemma_esc_char_shape(s[k]);
                        }
                        lemma_scan_push(p@, pos as int, out@, i as int, c2, ni as int);
                    }
                    out.push(c2);
                    i = ni;
                },
            }
        } else {
            proof {
                assert forall|s: Seq<char>| #[trigger] frag_at(p@, pos as int, jstr(s)) implies (
                out@.len() < s.len() && c == s[k] && i + 1 == i + esc_char(s[k]).len()) by {
                    lemma_esc_char_shape(s[k]);
                }
                lemma_scan_push(p@, pos as int, out@, i as int, c, i + 1 as int);
            }
            out.push(c);
            i += 1;
        }
    }
}

/// A decimal rendering of the number stands at the position and ends there:
/// the text ends or goes on with a non-digit.
pub open spec fn dec_at_end(p: Seq<char>, pos: int, n: nat) -> bool {
    &&& frag_at(p, pos, spec_dec(n))
    &&& (pos + spec_dec(n).len() == p.len() || spec_digit(p[pos + spec_dec(n).len()]) is None)
}

/// Parses an unsigned decimal number at the position, refusing values above
/// the bound.  A rendered number within the bound, delimited by a non-digit
/// or the end of the text, parses back to itself.
fn parse_num(p: &Vec<char>, pos: usize, max: u32) -> (r: Option<(u32, usize)>)
    requires
        pos <= p@.len(),
    ensures
        r is Some ==> pos < (r->0).1 <= p@.len() && (r->0).0 <= max,
        forall|n: nat|
            dec_at_end(p@, pos as int, n) && n <= max ==> r == Some(
                (n as u32, (pos + spec_dec(n).len()) as usize),
            ),
{
    let mut i: usize = pos;
    let mut val: u64 = 0;
    let mut any = false;
    loop
        invariant
            pos <= i <= p@.len(),
            val <= max as u64,
            any == (pos < i),
            forall|n: nat|
                dec_at_end(p@, pos as int, n) && n <= max ==> (i - pos <= spec_dec(n).len()
                    && val == num_of(spec_dec(n).take(i - pos))),
        decreases p@.len() - i,
    {
        let done = if i == p.len() {
            true
        } else {
            match digit_val(p[i]) {
                None => true,
                Some(_) => false,
            }
        };
        if done {
            proof {
                assert forall|n: nat| dec_at_end(p@, pos as int, n) && n <= max implies (i - pos
                    == spec_dec(n).len() && val == n && pos < i) by {
                    lemma_dec_num(n);
                    if i - pos < spec_dec(n).len() {
                        assert(p@.subrange(pos as int, pos + spec_dec(n).len())[i - pos]
                            == spec_dec(n)[i - pos]);
                        assert(p@[i as int] == spec_dec(n)[i - pos]);
                        assert(i < p@.len());
                        assert(spec_digit(p@[i as int]) is Some);
                    }
                    assert(spec_dec(n).take(i - pos) =~= spec_dec(n));
                }
            }
            if !any {
                return None;
            }
            return Some((val as u32, i));
        }
        let d = match digit_val(p[i]) {
            Some(d) => d,
            None => {
                return None;
            },
        };
        proof {
            assert forall|n: nat| dec_at_end(p@, pos as int, n) && n <= max implies i - pos
                < spec_dec(n).len() by {
                lemma_dec_num(n);
                if i - pos == spec_dec(n).len() {
                    assert(spec_digit(p@[i as int]) is None);
                }
            }
        }
        let ghost val_before = val;
        val = val * 10 + d as u64;
        proof {
            assert forall|n: nat| dec_at_end(p@, pos as int, n) && n <= max implies (val == num_of(
                spec_dec(n).take(i - pos + 1),
            ) && val <= n) by {
                assert(p@.subrange(pos as int, pos + spec_dec(n).len())[i - pos] == spec_dec(
                    n,
                )[i - pos]);
                assert(p@[i as int] == spec_dec(n)[i - pos]);
                assert(spec_dec(n).take(i - pos + 1).drop_last() =~= spec_dec(n).take(i - pos));
                assert(spec_dec(n).take(i - pos + 1).last() == spec_dec(n)[i - pos]);
                lemma_dec_prefix_bound(n, i - pos + 1);
            }
        }
        if val > max as u64 {
            return None;
        }
        any = true;
        i += 1;
    }
}

/// The keys of the metadata pairs are pairwise distinct.
pub open spec fn txt_unique(t: Seq<(Seq<char>, Seq<char>)>) -> bool {
    forall|i: int, j: int| 0 <= i < j < t.len() ==> t[i].0 != t[j].0
}

/// Every service's metadata keys are pairwise distinct.
pub open spec fn txts_unique(l: Seq<SvcModel>) -> bool {
    forall|k: int| 0 <= k < l.len() ==> txt_unique(#[trigger] l[k].txt)
}

/// The configuration's metadata keys are pairwise distinct, service by
/// service.
pub open spec fn cfg_txts_unique(c: ConfigModel) -> bool {
    txts_unique(c.services)
}

/// The rest of a rendered metadata object: the remaining pairs,
/// comma-separated, then the closing brace.
pub open spec fn pairs_tail(t: Seq<(Seq<char>, Seq<char>)>) -> Seq<char>
    decreases t.len(),
{
    if t.len() == 0 {
        seq!['}']
    } else {
        render_pair(t[0]) + (if t.len() == 1 {
            seq!['}']
        } else {
            seq![','] + pairs_tail(t.drop_first())
        })
    }
}

/// A nonempty pair list renders as its first pair, a comma, and the rest.
proof fn lemma_render_pairs_front(t: Seq<(Seq<char>, Seq<char>)>)
    requires
        t.len() >= 2,
    ensures
        render_pairs(t) == render_pair(t[0]) + seq![','] + render_pairs(t.drop_first()),
    decreases t.len(),
{
    if t.len() == 2 {
        assert(t.drop_last() =~= seq![t[0]]);
        assert(t.drop_first() =~= seq![t[1]]);
        assert(seq![t[0]][0] == t[0]);
        assert(seq![t[1]][0] == t[1]);
        assert(t.last() == t[1]);
        assert(render_pairs(seq![t[0]]) == render_pair(t[0]));
        assert(render_pairs(t.drop_last()) == render_pair(t[0]));
        assert(render_pairs(t.drop_first()) == render_pair(t[1]));
        assert(render_pairs(t) =~= render_pair(t[0]) + seq![','] + render_pairs(t.drop_first()));
    } else {
        lemma_render_pairs_front(t.drop_last());
        assert(t.drop_last()[0] == t[0]);
        assert(t.drop_last().drop_first() =~= t.drop_first().drop_last());
        assert(t.drop_first().last() == t.last());
        assert(t.drop_first().len() >= 2);
        assert(render_pairs(t.drop_first()) == render_pairs(t.drop_first().drop_last()) + seq![
            ','
        ] + render_pair(t.drop_first().last()));
        assert(render_pairs(t) =~= render_pair(t[0]) + seq![','] + render_pairs(t.drop_first()));
    }
}

/// The tail form equals the rendered pairs followed by the closing brace.
proof fn lemma_pairs_tail(t: Seq<(Seq<char>, Seq<char>)>)
    ensures
        pairs_tail(t) == render_pairs(t) + seq!['}'],
    decreases t.len(),
{
    if t.len() == 0 {
        assert(pairs_tail(t) =~= render_pairs(t) + seq!['}']);
    } else if t.len() == 1 {
        assert(pairs_tail(t) =~= render_pairs(t) + seq!['}']);
    } else {
        lemma_pairs_tail(t.drop_first());
        lemma_render_pairs_front(t);
        assert(pairs_tail(t) =~= render_pairs(t) + seq!['}']);
    }
}

/// The rest of a rendered service array: the remaining services,
/// comma-separated, then the closing bracket.
pub open spec fn svcs_tail(l: Seq<SvcModel>) -> Seq<char>
    decreases l.len(),
{
    if l.len() == 0 {
        seq![']']
    } else {
        render_svc(l[0]) + (if l.len() == 1 {
            seq![']']
        } else {
            seq![','] + svcs_tail(l.drop_first())
        })
    }
}

/// A nonempty service list renders as its first service, a comma, and the
/// rest.
proof fn lemma_render_svcs_front(l: Seq<SvcModel>)
    requires
        l.len() >= 2,
    ensures
        render_svcs(l) == render_svc(l[0]) + seq![','] + render_svcs(l.drop_first()),
    decreases l.len(),
{
    if l.len() == 2 {
        assert(l.drop_last() =~= seq![l[0]]);
        assert(l.drop_first() =~= seq![l[1]]);
        assert(seq![l[0]][0] == l[0]);
        assert(seq![l[1]][0] == l[1]);
        assert(l.last() == l[1]);
        assert(render_svcs(seq![l[0]]) == render_svc(l[0]));
        assert(render_svcs(l.drop_last()) == render_svc(l[0]));
        assert(render_svcs(l.drop_first()) == render_svc(l[1]));
        assert(render_svcs(l) =~= render_svc(l[0]) + seq![','] + render_svcs(l.drop_first()));
    } else {
        lemma_render_svcs_front(l.drop_last());
        assert(l.drop_last()[0] == l[0]);
        assert(l.drop_last().drop_first() =~= l.drop_first().drop_last());
        assert(l.drop_first().last() == l.last());
        assert(l.drop_first().len() >= 2);
        assert(render_svcs(l.drop_first()) == render_svcs(l.drop_first().drop_last()) + seq![
            ','
        ] + render_svc(l.drop_first().last()));
        assert(render_svcs(l) =~= render_svc(l[0]) + seq![','] + render_svcs(l.drop_first()));
    }
}

/// The tail form equals the rendered services followed by the closing
/// bracket.
proof fn lemma_svcs_tail(l: Seq<SvcModel>)
    ensures
        svcs_tail(l) == render_svcs(l) + seq![']'],
    decreases l.len(),
{
    if l.len() == 0 {
        assert(svcs_tail(l) =~= render_svcs(l) + seq![']']);
    } else if l.len() == 1 {
        assert(svcs_tail(l) =~= render_svcs(l) + seq![']']);
    } else {
        lemma_svcs_tail(l.drop_first());
        lemma_render_svcs_front(l);
        assert(svcs_tail(l) =~= render_svcs(l) + seq![']']);
    }
}

/// The separator and rest after the pair at the index: a comma and the
/// remaining pairs, or the closing brace.
pub open spec fn sep_tail(t: Seq<(Seq<char>, Seq<char>)>, k: int) -> Seq<char> {
    if t.skip(k).len() == 1 {
        seq!['}']
    } else {
        seq![','] + pairs_tail(t.skip(k + 1))
    }
}

/// Parses the body of a metadata object after its opening brace, consuming
/// the closing brace.  A later value under an already-seen key replaces the
/// earlier one, as a map would; a rendered object with distinct keys parses
/// back to exactly its pairs.
#[verifier::rlimit(100)]
fn parse_txt_body(p: &Vec<char>, pos: usize) -> (r: Option<(Vec<(String, String)>, usize)>)
    requires
        pos <= p@.len(),
    ensures
        r is Some ==> pos < (r->0).1 <= p@.len(),
        forall|t: Seq<(Seq<char>, Seq<char>)>|
            #[trigger] frag_at(p@, pos as int, render_pairs(t) + seq!['}']) && txt_unique(t) ==> (
            r is Some && txt_view((r->0).0@) == t && (r->0).1 == pos + render_pairs(t).len() + 1),
{
    let mut out: Vec<(String, String)> = Vec::new();
    proof {
        assert forall|t: Seq<(Seq<char>, Seq<char>)>|
            #[trigger] frag_at(p@, pos as int, render_pairs(t) + seq!['}']) && txt_unique(
                t,
            ) implies (frag_at(p@, pos as int, pairs_tail(t)) && pairs_tail(t).len()
            == render_pairs(t).len() + 1) by {
            lemma_pairs_tail(t);
        }
    }
    if pos < p.len() && p[pos] == '}' {
        proof {
            assert forall|t: Seq<(Seq<char>, Seq<char>)>|
                #[trigger] frag_at(p@, pos as int, render_pairs(t) + seq!['}']) && txt_unique(
                    t,
                ) implies (t.len() == 0 && txt_view(out@) == t) by {
                if t.len() > 0 {
                    assert(p@.subrange(pos as int, pos + pairs_tail(t).len())[0] == pairs_tail(
                        t,
                    )[0]);
                    assert(pairs_tail(t)[0] == render_pair(t[0])[0]);
                    assert(render_pair(t[0])[0] == jstr(t[0].0)[0]);
                    assert(jstr(t[0].0)[0] == '"');
                }
                assert(txt_view(out@) =~= t);
            }
        }
        return Some((out, pos + 1));
    }
    let mut i: usize = pos;
    let ghost mut k: int = 0;
    proof {
        assert forall|t: Seq<(Seq<char>, Seq<char>)>|
            #[trigger] frag_at(p@, pos as int, render_pairs(t) + seq!['}']) && txt_unique(
                t,
            ) implies (0 <= k < t.len() && txt_view(out@) == t.take(k) && frag_at(
            p@,
            i as int,
            pairs_tail(t.skip(k)),
        ) && i == pos + render_pairs(t).len() + 1 - pairs_tail(t.skip(k)).len()) by {
            if t.len() == 0 {
                assert(p@.subrange(pos as int, pos + pairs_tail(t).len())[0] == '}');
            }
            assert(t.skip(0) =~= t);
            assert(txt_view(out@) =~= t.take(0));
        }
    }
    loop
        invariant
            pos <= i <= p@.len(),
            forall|t: Seq<(Seq<char>, Seq<char>)>|
                #[trigger] frag_at(p@, pos as int, render_pairs(t) + seq!['}']) && txt_unique(t)
                    ==> {
                    &&& 0 <= k < t.len()
                    &&& txt_view(out@) == t.take(k)
                    &&& frag_at(p@, i as int, pairs_tail(t.skip(k)))
                    &&& i == pos + render_pairs(t).len() + 1 - pairs_tail(t.skip(k)).len()
                },
        decreases p@.len() - i,
    {
        proof {
            assert forall|t: Seq<(Seq<char>, Seq<char>)>|
                #[trigger] frag_at(p@, pos as int, render_pairs(t) + seq!['}']) && txt_unique(
                    t,
                ) implies {
                &&& frag_at(p@, i as int, jstr(t[k].0))
                &&& frag_at(p@, i + jstr(t[k].0).len(), seq![':'])
                &&& frag_at(p@, i + jstr(t[k].0).len() + 1, jstr(t[k].1))
                &&& frag_at(p@, i + render_pair(t[k]).len(), sep_tail(t, k))
                &&& pairs_tail(t.skip(k)).len() == render_pair(t[k]).len() + sep_tail(t, k).len()
            } by {
                assert(t.skip(k)[0] == t[k]);
                assert(t.skip(k).drop_first() =~= t.skip(k + 1));
                assert(pairs_tail(t.skip(k)) =~= jstr(t[k].0) + (seq![':'] + (jstr(t[k].1)
                    + sep_tail(t, k))));
                lemma_frag_split(
                    p@,
                    i as int,
                    jstr(t[k].0),
                    seq![':'] + (jstr(t[k].1) + sep_tail(t, k)),
                );
                lemma_frag_split(
                    p@,
                    i + jstr(t[k].0).len(),
                    seq![':'],
                    jstr(t[k].1) + sep_tail(t, k),
                );
                lemma_frag_split(p@, i + jstr(t[k].0).len() + 1, jstr(t[k].1), sep_tail(t, k));
            }
        }
        let (key, n1) = match parse_string(p, i) {
            Some(kv) => kv,
            None => {
                return None;
            },
        };
        if n1 >= p.len() || p[n1] != ':' {
            proof {
                assert forall|t: Seq<(Seq<char>, Seq<char>)>|
                    #[trigger] frag_at(p@, pos as int, render_pairs(t) + seq!['}']) && txt_unique(
                        t,
                    ) implies false by {
                    assert(n1 == i + jstr(t[k].0).len());
                    assert(p@.subrange(n1 as int, n1 + 1)[0] == ':');
                }
            }
            return None;
        }
        let (val, n2) = match parse_string(p, n1 + 1) {
            Some(kv) => kv,
            None => {
                return None;
            },
        };
        // a later value under the same key replaces the earlier one
        let m = out.len();
        let mut f: usize = 0;
        let mut dup: Option<usize> = None;
        while f < m
            invariant
                m == out@.len(),
                f <= m,
                dup is Some ==> r_matches_dup(out@, key@, dup->0 as int),
                dup is None ==> forall|j: int| 0 <= j < f ==> out@[j].0@ != key@,
            decreases m - f,
        {
            if dup.is_none() && out[f].0 == key {
                dup = Some(f);
            }
            f += 1;
        }
        let ghost out_before = out@;
        match dup {
            Some(d) => {
                proof {
                    assert forall|t: Seq<(Seq<char>, Seq<char>)>|
                        #[trigger] frag_at(p@, pos as int, render_pairs(t) + seq!['}'])
                            && txt_unique(t) implies false by {
                        assert(key@ == t[k].0);
                        assert(txt_view(out_before)[d as int].0 == out_before[d as int].0@);
                        assert(t.take(k)[d as int].0 == t[k].0);
                        assert(t[d as int].0 == t[k].0);
                    }
                }
                out.remove(d);
                out.push((key, val));
            },
            None => {
                out.push((key, val));
            },
        }
        proof {
            assert forall|t: Seq<(Seq<char>, Seq<char>)>|
                #[trigger] frag_at(p@, pos as int, render_pairs(t) + seq!['}']) && txt_unique(
                    t,
                ) implies (txt_view(out@) == t.take(k + 1) && n2 == i + render_pair(t[k]).len()
                && frag_at(p@, n2 as int, sep_tail(t, k))) by {
                assert(key@ == t[k].0 && n1 == i + jstr(t[k].0).len());
                assert(val@ == t[k].1 && n2 == n1 + 1 + jstr(t[k].1).len());
                assert(txt_view(out@) =~= txt_view(out_before).push((key@, val@)));
                assert(t.take(k + 1) =~= t.take(k).push(t[k]));
            }
        }
        if n2 < p.len() && p[n2] == ',' {
            proof {
                assert forall|t: Seq<(Seq<char>, Seq<char>)>|
                    #[trigger] frag_at(p@, pos as int, render_pairs(t) + seq!['}']) && txt_unique(
                        t,
                    ) implies (k + 1 < t.len() && frag_at(p@, n2 + 1, pairs_tail(t.skip(k + 1)))
                    && n2 + 1 == pos + render_pairs(t).len() + 1 - pairs_tail(
                    t.skip(k + 1),
                ).len()) by {
                    if t.skip(k).len() == 1 {
                        assert(p@.subrange(n2 as int, n2 + 1)[0] == '}');
                    }
                    assert(t.skip(k).len() >= 2);
                    lemma_frag_split(p@, n2 as int, seq![','], pairs_tail(t.skip(k + 1)));
                }
                k = k + 1;
            }
            i = n2 + 1;
        } else if n2 < p.len() && p[n2] == '}' {
            proof {
                assert forall|t: Seq<(Seq<char>, Seq<char>)>|
                    #[trigger] frag_at(p@, pos as int, render_pairs(t) + seq!['}']) && txt_unique(
                        t,
                    ) implies (txt_view(out@) == t && n2 + 1 == pos + render_pairs(t).len()
                    + 1) by {
                    if t.skip(k).len() != 1 {
                        assert(p@.subrange(n2 as int, n2 + sep_tail(t, k).len())[0] == ',');
                    }
                    assert(t.skip(k).len() == 1);
                    assert(t.len() == k + 1);
                    assert(t.take(k + 1) =~= t);
                }
            }
            return Some((out, n2 + 1));
        } else {
            proof {
                assert forall|t: Seq<(Seq<char>, Seq<char>)>|
                    #[trigger] frag_at(p@, pos as int, render_pairs(t) + seq!['}']) && txt_unique(
                        t,
                    ) implies false by {
                    if t.skip(k).len() == 1 {
                        assert(p@.subrange(n2 as int, n2 + 1)[0] == '}');
                    } else {
                        assert(p@.subrange(n2 as int, n2 + sep_tail(t, k).len())[0] == ',');
                    }
                }
            }
            return None;
        }
    }
}

/// The pair at the index carries the key.
pub open spec fn r_matches_dup(out: Seq<(String, String)>, key: Seq<char>, d: int) -> bool {
    0 <= d < out.len() && out[d].0@ == key
}

/// Where each piece of a rendered service object stands.
#[verifier::rlimit(100)]
proof fn lemma_svc_probe(p: Seq<char>, pos: int, m: SvcModel)
    requires
        frag_at(p, pos, render_svc(m)),
    ensures
        ({
            let q1 = pos + "{\"id\":"@.len();
            let q2 = q1 + jstr(m.id).len();
            let q3 = q2 + ",\"name\":"@.len();
            let q4 = q3 + jstr(m.name).len();
            let q5 = q4 + ",\"type\":"@.len();
            let q6 = q5 + jstr(m.service_type).len();
            let q7 = q6 + ",\"port\":"@.len();
            let q8 = q7 + spec_dec(m.port as nat).len();
            let q9 = q8 + ",\"txt\":{"@.len();
            let q10 = q9 + render_pairs(m.txt).len() + 1;
            let q11 = q10 + ",\"enabled\":"@.len();
            let b = if m.enabled {
                "true"@
            } else {
                "false"@
            };
            let q12 = q11 + b.len();
            &&& frag_at(p, pos, "{\"id\":"@)
            &&& frag_at(p, q1, jstr(m.id))
            &&& frag_at(p, q2, ",\"name\":"@)
            &&& frag_at(p, q3, jstr(m.name))
            &&& frag_at(p, q4, ",\"type\":"@)
            &&& frag_at(p, q5, jstr(m.service_type))
            &&& frag_at(p, q6, ",\"port\":"@)
            &&& frag_at(p, q7, spec_dec(m.port as nat))
            &&& q8 < p.len() && spec_digit(p[q8]) is None
            &&& frag_at(p, q8, ",\"txt\":{"@)
            &&& frag_at(p, q9, render_pairs(m.txt) + seq!['}'])
            &&& frag_at(p, q10, ",\"enabled\":"@)
            &&& frag_at(p, q11, b)
            &&& m.enabled ==> b.len() == 4
            &&& !m.enabled ==> b.len() == 5
            &&& q12 < p.len() && p[q12] == '}'
            &&& pos + render_svc(m).len() == q12 + 1
        }),
{
    reveal_strlit(",\"txt\":{");
    reveal_strlit("},\"enabled\":");
    reveal_strlit(",\"enabled\":");
    reveal_strlit("true");
    reveal_strlit("false");
    let b = if m.enabled {
        "true"@
    } else {
        "false"@
    };
    assert("},\"enabled\":"@ =~= seq!['}'] + ",\"enabled\":"@);
    let rest8 = ",\"txt\":{"@ + ((render_pairs(m.txt) + seq!['}']) + (",\"enabled\":"@ + (b
        + seq!['}'])));
    let rest6 = ",\"port\":"@ + (spec_dec(m.port as nat) + rest8);
    let rest4 = ",\"type\":"@ + (jstr(m.service_type) + rest6);
    let rest2 = ",\"name\":"@ + (jstr(m.name) + rest4);
    assert(render_svc(m) =~= "{\"id\":"@ + (jstr(m.id) + rest2));
    let q1 = pos + "{\"id\":"@.len();
    let q2 = q1 + jstr(m.id).len();
    let q3 = q2 + ",\"name\":"@.len();
    let q4 = q3 + jstr(m.name).len();
    let q5 = q4 + ",\"type\":"@.len();
    let q6 = q5 + jstr(m.service_type).len();
    let q7 = q6 + ",\"port\":"@.len();
    let q8 = q7 + spec_dec(m.port as nat).len();
    let q9 = q8 + ",\"txt\":{"@.len();
    let q10 = q9 + render_pairs(m.txt).len() + 1;
    let q11 = q10 + ",\"enabled\":"@.len();
    lemma_frag_split(p, pos, "{\"id\":"@, jstr(m.id) + rest2);
    lemma_frag_split(p, q1, jstr(m.id), rest2);
    lemma_frag_split(p, q2, ",\"name\":"@, jstr(m.name) + rest4);
    lemma_frag_split(p, q3, jstr(m.name), rest4);
    lemma_frag_split(p, q4, ",\"type\":"@, jstr(m.service_type) + rest6);
    lemma_frag_split(p, q5, jstr(m.service_type), rest6);
    lemma_frag_split(p, q6, ",\"port\":"@, spec_dec(m.port as nat) + rest8);
    lemma_frag_split(p, q7, spec_dec(m.port as nat), rest8);
    lemma_frag_split(
        p,
        q8,
        ",\"txt\":{"@,
        (render_pairs(m.txt) + seq!['}']) + (",\"enabled\":"@ + (b + seq!['}'])),
    );
    lemma_frag_split(p, q9, render_pairs(m.txt) + seq!['}'], ",\"enabled\":"@ + (b + seq!['}']));
    lemma_frag_split(p, q10, ",\"enabled\":"@, b + seq!['}']);
    lemma_frag_split(p, q11, b, seq!['}']);
    assert(p.subrange(q8, q8 + ",\"txt\":{"@.len())[0] == ',');
    assert(p.subrange(q11 + b.len(), q11 + b.len() + 1)[0] == '}');
}

/// Where this piece of a rendered service object stands.
proof fn svc_at_lit_id(p: Seq<char>, pos: int, m: SvcModel)
    requires
        frag_at(p, pos, render_svc(m)),
    ensures
        frag_at(p, pos, "{\"id\":"@),
{
    lemma_svc_probe(p, pos, m);
}

/// Where this piece of a rendered service object stands.
proof fn svc_at_id(p: Seq<char>, pos: int, m: SvcModel)
    requires
        frag_at(p, pos, render_svc(m)),
    ensures
        frag_at(p, pos + "{\"id\":"@.len(), jstr(m.id)),
{
    lemma_svc_probe(p, pos, m);
}

/// Where this piece of a rendered service object stands.
proof fn svc_at_lit_name(p: Seq<char>, pos: int, m: SvcModel)
    requires
        frag_at(p, pos, render_svc(m)),
    ensures
        frag_at(p, pos + "{\"id\":"@.len() + jstr(m.id).len(), ",\"name\":"@),
{
    lemma_svc_probe(p, pos, m);
}

/// Where this piece of a rendered service object stands.
proof fn svc_at_name(p: Seq<char>, pos: int, m: SvcModel)
    requires
        frag_at(p, pos, render_svc(m)),
    ensures
        frag_at(p, pos + "{\"id\":"@.len() + jstr(m.id).len() + ",\"name\":"@.len(), jstr(m.name)),
{
    lemma_svc_probe(p, pos, m);
}

/// Where this piece of a rendered service object stands.
proof fn svc_at_lit_type(p: Seq<char>, pos: int, m: SvcModel)
    requires
        frag_at(p, pos, render_svc(m)),
    ensures
        frag_at(p, pos + "{\"id\":"@.len() + jstr(m.id).len() + ",\"name\":"@.len() + jstr(m.name).len(), ",\"type\":"@),
{
    lemma_svc_probe(p, pos, m);
}

/// Where this piece of a rendered service object stands.
proof fn svc_at_type(p: Seq<char>, pos: int, m: SvcModel)
    requires
        frag_at(p, pos, render_svc(m)),
    ensures
        frag_at(p, pos + "{\"id\":"@.len() + jstr(m.id).len() + ",\"name\":"@.len() + jstr(m.name).len() + ",\"type\":"@.len(), jstr(m.service_type)),
{
    lemma_svc_probe(p, pos, m);
}

/// Where this piece of a rendered service object stands.
proof fn svc_at_lit_port(p: Seq<char>, pos: int, m: SvcModel)
    requires
        frag_at(p, pos, render_svc(m)),
    ensures
        frag_at(p, pos + "{\"id\":"@.len() + jstr(m.id).len() + ",\"name\":"@.len() + jstr(m.name).len() + ",\"type\":"@.len() + jstr(m.service_type).len(), ",\"port\":"@),
{
    lemma_svc_probe(p, pos, m);
}

/// The port's decimal rendering stands before the metadata key and ends at a
/// non-digit.
proof fn svc_at_port(p: Seq<char>, pos: int, m: SvcModel)
    requires
        frag_at(p, pos, render_svc(m)),
    ensures
        dec_at_end(p, pos + "{\"id\":"@.len() + jstr(m.id).len() + ",\"name\":"@.len() + jstr(m.name).len() + ",\"type\":"@.len() + jstr(m.service_type).len() + ",\"port\":"@.len(), m.port as nat),
        pos + svc_head_len(m) == pos + "{\"id\":"@.len() + jstr(m.id).len() + ",\"name\":"@.len() + jstr(m.name).len() + ",\"type\":"@.len() + jstr(m.service_type).len() + ",\"port\":"@.len() + spec_dec(m.port as nat).len(),
{
    lemma_svc_probe(p, pos, m);
}

/// Where the metadata object and what follows it stand.
proof fn svc_at_txt(p: Seq<char>, pos: int, m: SvcModel)
    requires
        frag_at(p, pos, render_svc(m)),
    ensures
        frag_at(p, pos + svc_head_len(m), ",\"txt\":{"@),
        frag_at(p, pos + svc_head_len(m) + ",\"txt\":{"@.len(), render_pairs(m.txt) + seq!['}']),
        frag_at(p, pos + svc_head_len(m) + ",\"txt\":{"@.len() + render_pairs(m.txt).len() + 1, ",\"enabled\":"@),
{
    lemma_svc_probe(p, pos, m);
}

/// Where the desired-state literal and the closing brace stand.
proof fn svc_at_tail(p: Seq<char>, pos: int, m: SvcModel)
    requires
        frag_at(p, pos, render_svc(m)),
    ensures
        ({
            let q11 = pos + svc_head_len(m) + ",\"txt\":{"@.len() + render_pairs(m.txt).len() + 1 + ",\"enabled\":"@.len();
            let blen: int = if m.enabled {
                4
            } else {
                5
            };
            &&& frag_at(p, q11, if m.enabled {
                "true"@
            } else {
                "false"@
            })
            &&& (m.enabled ==> "true"@.len() == 4)
            &&& (!m.enabled ==> "false"@.len() == 5)
            &&& q11 + blen < p.len()
            &&& p[q11 + blen] == '}'
            &&& pos + render_svc(m).len() == q11 + blen + 1
        }),
{
    lemma_svc_probe(p, pos, m);
}

/// How far into a rendered service object its port field reaches.
pub open spec fn svc_head_len(m: SvcModel) -> int {
    ("{\"id\":"@.len() + jstr(m.id).len() + ",\"name\":"@.len() + jstr(m.name).len()
        + ",\"type\":"@.len() + jstr(m.service_type).len() + ",\"port\":"@.len() + spec_dec(
        m.port as nat,
    ).len()) as int
}

/// Parses the identity, name, type and port fields of a service object.
#[verifier::rlimit(100)]
fn parse_svc_head(p: &Vec<char>, pos: usize) -> (r: Option<((String, String, String, u32), usize)>)
    requires
        pos <= p@.len(),
    ensures
        r is Some ==> pos < (r->0).1 <= p@.len(),
        forall|m: SvcModel|
            #[trigger] frag_at(p@, pos as int, render_svc(m)) && txt_unique(m.txt) ==> (r is Some
                && ((r->0).0).0@ == m.id && ((r->0).0).1@ == m.name && ((r->0).0).2@
                == m.service_type && ((r->0).0).3 == m.port as u32 && (r->0).1 == pos
                + svc_head_len(m)),
{
    let n1 = match match_lit(p, pos, &chars_of("{\"id\":")) {
        Some(n) => n,
        None => {
            proof {
                assert forall|m: SvcModel|
                    #[trigger] frag_at(p@, pos as int, render_svc(m)) && txt_unique(
                        m.txt,
                    ) implies false by {
                    svc_at_lit_id(p@, pos as int, m);
                }
            }
            return None;
        },
    };
    let (id, n2) = match parse_string(p, n1) {
        Some(v) => v,
        None => {
            proof {
                assert forall|m: SvcModel|
                    #[trigger] frag_at(p@, pos as int, render_svc(m)) && txt_unique(
                        m.txt,
                    ) implies false by {
                    svc_at_id(p@, pos as int, m);
                }
            }
            return None;
        },
    };
    proof {
        assert forall|m: SvcModel|
            #[trigger] frag_at(p@, pos as int, render_svc(m)) && txt_unique(m.txt) implies (id@
            == m.id && n2 == pos + "{\"id\":"@.len() + jstr(m.id).len()) by {
            svc_at_id(p@, pos as int, m);
        }
    }
    let n3 = match match_lit(p, n2, &chars_of(",\"name\":")) {
        Some(n) => n,
        None => {
            proof {
                assert forall|m: SvcModel|
                    #[trigger] frag_at(p@, pos as int, render_svc(m)) && txt_unique(
                        m.txt,
                    ) implies false by {
                    svc_at_lit_name(p@, pos as int, m);
                }
            }
            return None;
        },
    };
    let (name, n4) = match parse_string(p, n3) {
        Some(v) => v,
        None => {
            proof {
                assert forall|m: SvcModel|
                    #[trigger] frag_at(p@, pos as int, render_svc(m)) && txt_unique(
                        m.txt,
                    ) implies false by {
                    svc_at_name(p@, pos as int, m);
                }
            }
            return None;
        },
    };
    proof {
        assert forall|m: SvcModel|
            #[trigger] frag_at(p@, pos as int, render_svc(m)) && txt_unique(m.txt) implies (name@
            == m.name && n4 == pos + "{\"id\":"@.len() + jstr(m.id).len() + ",\"name\":"@.len()
            + jstr(m.name).len()) by {
            svc_at_name(p@, pos as int, m);
        }
    }
    let n5 = match match_lit(p, n4, &chars_of(",\"type\":")) {
        Some(n) => n,
        None => {
            proof {
                assert forall|m: SvcModel|
                    #[trigger] frag_at(p@, pos as int, render_svc(m)) && txt_unique(
                        m.txt,
                    ) implies false by {
                    svc_at_lit_type(p@, pos as int, m);
                }
            }
            return None;
        },
    };
    let (service_type, n6) = match parse_string(p, n5) {
        Some(v) => v,
        None => {
            proof {
                assert forall|m: SvcModel|
                    #[trigger] frag_at(p@, pos as int, render_svc(m)) && txt_unique(
                        m.txt,
                    ) implies false by {
                    svc_at_type(p@, pos as int, m);
                }
            }
            return None;
        },
    };
    proof {
        assert forall|m: SvcModel|
            #[trigger] frag_at(p@, pos as int, render_svc(m)) && txt_unique(
                m.txt,
            ) implies (service_type@ == m.service_type && n6 == pos + "{\"id\":"@.len() + jstr(
                m.id,
            ).len() + ",\"name\":"@.len() + jstr(m.name).len() + ",\"type\":"@.len() + jstr(
                m.service_type,
            ).len()) by {
            svc_at_type(p@, pos as int, m);
        }
    }
    let n7 = match match_lit(p, n6, &chars_of(",\"port\":")) {
        Some(n) => n,
        None => {
            proof {
                assert forall|m: SvcModel|
                    #[trigger] frag_at(p@, pos as int, render_svc(m)) && txt_unique(
                        m.txt,
                    ) implies false by {
                    svc_at_lit_port(p@, pos as int, m);
                }
            }
            return None;
        },
    };
    let plen = p.len();
    let pn = parse_num(p, n7, 65535);
    let (port, n8) = match pn {
        Some(v) => v,
        None => {
            proof {
                assert forall|m: SvcModel|
                    #[trigger] frag_at(p@, pos as int, render_svc(m)) && txt_unique(
                        m.txt,
                    ) implies false by {
                    svc_at_port(p@, pos as int, m);
                    assert(dec_at_end(p@, n7 as int, m.port as nat));
                    assert(m.port as nat <= 65535);
                }
            }
            return None;
        },
    };
    proof {
        assert forall|m: SvcModel|
            #[trigger] frag_at(p@, pos as int, render_svc(m)) && txt_unique(m.txt) implies (
        port == m.port as u32 && n8 == pos + svc_head_len(m)) by {
            svc_at_port(p@, pos as int, m);
            assert(n7 == pos + "{\"id\":"@.len() + jstr(m.id).len() + ",\"name\":"@.len()
                + jstr(m.name).len() + ",\"type\":"@.len() + jstr(m.service_type).len()
                + ",\"port\":"@.len());
            assert(dec_at_end(p@, n7 as int, m.port as nat));
            assert(m.port as nat <= 65535);
            assert(pn == Some(
                ((m.port as nat) as u32, (n7 + spec_dec(m.port as nat).len()) as usize),
            ));
            assert(pn == Some((port, n8)));
            assert(port == (m.port as nat) as u32);
            assert((m.port as nat) as u32 == m.port as u32);
            assert(n7 + spec_dec(m.port as nat).len() <= p@.len());
            assert(plen as int == p@.len());
            assert(n8 == n7 + spec_dec(m.port as nat).len());
        }
    }
    Some(((id, name, service_type, port), n8))
}

/// Parses one service object at the position.  A rendered service object
/// whose metadata keys are distinct parses back to exactly its definition,
/// consuming exactly its rendered form.
#[verifier::rlimit(100)]
fn parse_svc(p: &Vec<char>, pos: usize) -> (r: Option<(ServiceConfig, usize)>)
    requires
        pos <= p@.len(),
    ensures
        r is Some ==> pos < (r->0).1 <= p@.len(),
        forall|m: SvcModel|
            #[trigger] frag_at(p@, pos as int, render_svc(m)) && txt_unique(m.txt) ==> (r is Some
                && (r->0).0@ == m && (r->0).1 == pos + render_svc(m).len()),
{
    let (fields, n8) = match parse_svc_head(p, pos) {
        Some(v) => v,
        None => {
            proof {
                assert forall|m: SvcModel|
                    #[trigger] frag_at(p@, pos as int, render_svc(m)) && txt_unique(
                        m.txt,
                    ) implies false by {
                }
            }
            return None;
        },
    };
    let (id, name, service_type, port) = fields;
    let n9 = match match_lit(p, n8, &chars_of(",\"txt\":{")) {
        Some(n) => n,
        None => {
            proof {
                assert forall|m: SvcModel|
                    #[trigger] frag_at(p@, pos as int, render_svc(m)) && txt_unique(
                        m.txt,
                    ) implies false by {
                    svc_at_txt(p@, pos as int, m);
                }
            }
            return None;
        },
    };
    let (txt, n10) = match parse_txt_body(p, n9) {
        Some(v) => v,
        None => {
            proof {
                assert forall|m: SvcModel|
                    #[trigger] frag_at(p@, pos as int, render_svc(m)) && txt_unique(
                        m.txt,
                    ) implies false by {
                    svc_at_txt(p@, pos as int, m);
                }
            }
            return None;
        },
    };
    let n11 = match match_lit(p, n10, &chars_of(",\"enabled\":")) {
        Some(n) => n,
        None => {
            proof {
                assert forall|m: SvcModel|
                    #[trigger] frag_at(p@, pos as int, render_svc(m)) && txt_unique(
                        m.txt,
                    ) implies false by {
                    svc_at_txt(p@, pos as int, m);
                }
            }
            return None;
        },
    };
    let (enabled, n12) = if let Some(n) = match_lit(p, n11, &chars_of("true")) {
        proof {
            reveal_strlit("true");
            reveal_strlit("false");
            assert forall|m: SvcModel|
                #[trigger] frag_at(p@, pos as int, render_svc(m)) && txt_unique(
                    m.txt,
                ) implies (m.enabled && n == n11 + 4) by {
                svc_at_txt(p@, pos as int, m);
                svc_at_tail(p@, pos as int, m);
                if !m.enabled {
                    assert(p@.subrange(n11 as int, n11 + 4)[0] == 't');
                    assert(p@.subrange(n11 as int, n11 + 5)[0] == 'f');
                }
            }
        }
        (true, n)
    } else if let Some(n) = match_lit(p, n11, &chars_of("false")) {
        proof {
            reveal_strlit("true");
            reveal_strlit("false");
            assert forall|m: SvcModel|
                #[trigger] frag_at(p@, pos as int, render_svc(m)) && txt_unique(
                    m.txt,
                ) implies (!m.enabled && n == n11 + 5) by {
                svc_at_txt(p@, pos as int, m);
                svc_at_tail(p@, pos as int, m);
                if m.enabled {
                    assert(p@.subrange(n11 as int, n11 + 4)[0] == 't');
                    assert(p@.subrange(n11 as int, n11 + 5)[0] == 'f');
                }
            }
        }
        (false, n)
    } else {
        proof {
            reveal_strlit("true");
            reveal_strlit("false");
            assert forall|m: SvcModel|
                #[trigger] frag_at(p@, pos as int, render_svc(m)) && txt_unique(
                    m.txt,
                ) implies false by {
                svc_at_txt(p@, pos as int, m);
                svc_at_tail(p@, pos as int, m);
            }
        }
        return None;
    };
    if n12 < p.len() && p[n12] == '}' {
        let svc = ServiceConfig { id, name, service_type, port: port as u16, txt, enabled };
        proof {
            assert forall|m: SvcModel|
                #[trigger] frag_at(p@, pos as int, render_svc(m)) && txt_unique(m.txt) implies (
            svc@ == m && n12 + 1 == pos + render_svc(m).len()) by {
                svc_at_txt(p@, pos as int, m);
                svc_at_tail(p@, pos as int, m);
            }
        }
        Some((svc, n12 + 1))
    } else {
        proof {
            assert forall|m: SvcModel|
                #[trigger] frag_at(p@, pos as int, render_svc(m)) && txt_unique(
                    m.txt,
                ) implies false by {
                svc_at_txt(p@, pos as int, m);
                svc_at_tail(p@, pos as int, m);
            }
        }
        None
    }
}

/// The separator and rest after the service at the index: a comma and the
/// remaining services, or the closing bracket.
pub open spec fn svcs_sep(l: Seq<SvcModel>, k: int) -> Seq<char> {
    if l.skip(k).len() == 1 {
        seq![']']
    } else {
        seq![','] + svcs_tail(l.skip(k + 1))
    }
}

/// The views of the parsed services.
pub open spec fn svcs_view(v: Seq<ServiceConfig>) -> Seq<SvcModel> {
    v.map(|i: int, s: ServiceConfig| s@)
}

/// Parses the service array body after its opening bracket, consuming the
/// closing bracket.  A rendered array of services with distinct metadata keys
/// parses back to exactly those services.
#[verifier::rlimit(100)]
fn parse_svcs(p: &Vec<char>, pos: usize) -> (r: Option<(Vec<ServiceConfig>, usize)>)
    requires
        pos <= p@.len(),
    ensures
        r is Some ==> pos < (r->0).1 <= p@.len(),
        forall|l: Seq<SvcModel>|
            #[trigger] frag_at(p@, pos as int, render_svcs(l) + seq![']']) && txts_unique(l) ==> (
            r is Some && svcs_view((r->0).0@) == l && (r->0).1 == pos + render_svcs(l).len() + 1),
{
    let mut out: Vec<ServiceConfig> = Vec::new();
    proof {
        reveal_strlit("{\"id\":");
        assert forall|l: Seq<SvcModel>|
            #[trigger] frag_at(p@, pos as int, render_svcs(l) + seq![']']) && txts_unique(
                l,
            ) implies (frag_at(p@, pos as int, svcs_tail(l)) && svcs_tail(l).len()
            == render_svcs(l).len() + 1) by {
            lemma_svcs_tail(l);
        }
    }
    if pos < p.len() && p[pos] == ']' {
        proof {
            assert forall|l: Seq<SvcModel>|
                #[trigger] frag_at(p@, pos as int, render_svcs(l) + seq![']']) && txts_unique(
                    l,
                ) implies (l.len() == 0 && svcs_view(out@) == l) by {
                if l.len() > 0 {
                    assert(p@.subrange(pos as int, pos + svcs_tail(l).len())[0] == svcs_tail(
                        l,
                    )[0]);
                    assert(svcs_tail(l)[0] == render_svc(l[0])[0]);
                    assert(render_svc(l[0])[0] == "{\"id\":"@[0]);
                }
                assert(svcs_view(out@) =~= l);
            }
        }
        return Some((out, pos + 1));
    }
    let mut i: usize = pos;
    let ghost mut k: int = 0;
    proof {
        assert forall|l: Seq<SvcModel>|
            #[trigger] frag_at(p@, pos as int, render_svcs(l) + seq![']']) && txts_unique(
                l,
            ) implies (0 <= k < l.len() && svcs_view(out@) == l.take(k) && frag_at(
            p@,
            i as int,
            svcs_tail(l.skip(k)),
        ) && i == pos + render_svcs(l).len() + 1 - svcs_tail(l.skip(k)).len()) by {
            if l.len() == 0 {
                assert(p@.subrange(pos as int, pos + svcs_tail(l).len())[0] == ']');
            }
            assert(l.skip(0) =~= l);
            assert(svcs_view(out@) =~= l.take(0));
        }
    }
    loop
        invariant
            pos <= i <= p@.len(),
            forall|l: Seq<SvcModel>|
                #[trigger] frag_at(p@, pos as int, render_svcs(l) + seq![']']) && txts_unique(l)
                    ==> {
                    &&& 0 <= k < l.len()
                    &&& svcs_view(out@) == l.take(k)
                    &&& frag_at(p@, i as int, svcs_tail(l.skip(k)))
                    &&& i == pos + render_svcs(l).len() + 1 - svcs_tail(l.skip(k)).len()
                },
        decreases p@.len() - i,
    {
        proof {
            assert forall|l: Seq<SvcModel>|
                #[trigger] frag_at(p@, pos as int, render_svcs(l) + seq![']']) && txts_unique(
                    l,
                ) implies (frag_at(p@, i as int, render_svc(l[k])) && txt_unique(l[k].txt)
                && frag_at(p@, i + render_svc(l[k]).len(), svcs_sep(l, k)) && svcs_tail(
                l.skip(k),
            ).len() == render_svc(l[k]).len() + svcs_sep(l, k).len()) by {
                assert(l.skip(k)[0] == l[k]);
                assert(l.skip(k).drop_first() =~= l.skip(k + 1));
                assert(svcs_tail(l.skip(k)) =~= render_svc(l[k]) + svcs_sep(l, k));
                lemma_frag_split(p@, i as int, render_svc(l[k]), svcs_sep(l, k));
            }
        }
        let (svc, nn) = match parse_svc(p, i) {
            Some(v) => v,
            None => {
                return None;
            },
        };
        let ghost out_before = out@;
        out.push(svc);
        proof {
            assert forall|l: Seq<SvcModel>|
                #[trigger] frag_at(p@, pos as int, render_svcs(l) + seq![']']) && txts_unique(
                    l,
                ) implies (svcs_view(out@) == l.take(k + 1) && nn == i + render_svc(l[k]).len()
                && frag_at(p@, nn as int, svcs_sep(l, k))) by {
                assert(svc@ == l[k]);
                assert(svcs_view(out@) =~= svcs_view(out_before).push(svc@));
                assert(l.take(k + 1) =~= l.take(k).push(l[k]));
            }
        }
        if nn < p.len() && p[nn] == ',' {
            proof {
                assert forall|l: Seq<SvcModel>|
                    #[trigger] frag_at(p@, pos as int, render_svcs(l) + seq![']']) && txts_unique(
                        l,
                    ) implies (k + 1 < l.len() && frag_at(p@, nn + 1, svcs_tail(l.skip(k + 1)))
                    && nn + 1 == pos + render_svcs(l).len() + 1 - svcs_tail(
                    l.skip(k + 1),
                ).len()) by {
                    if l.skip(k).len() == 1 {
                        assert(p@.subrange(nn as int, nn + 1)[0] == ']');
                    }
                    assert(l.skip(k).len() >= 2);
                    lemma_frag_split(p@, nn as int, seq![','], svcs_tail(l.skip(k + 1)));
                }
                k = k + 1;
            }
            i = nn + 1;
        } else if nn < p.len() && p[nn] == ']' {
            proof {
                assert forall|l: Seq<SvcModel>|
                    #[trigger] frag_at(p@, pos as int, render_svcs(l) + seq![']']) && txts_unique(
                        l,
                    ) implies (svcs_view(out@) == l && nn + 1 == pos + render_svcs(l).len()
                    + 1) by {
                    if l.skip(k).len() != 1 {
                        assert(p@.subrange(nn as int, nn + svcs_sep(l, k).len())[0] == ',');
                    }
                    assert(l.skip(k).len() == 1);
                    assert(l.len() == k + 1);
                    assert(l.take(k + 1) =~= l);
                }
            }
            return Some((out, nn + 1));
        } else {
            proof {
                assert forall|l: Seq<SvcModel>|
                    #[trigger] frag_at(p@, pos as int, render_svcs(l) + seq![']']) && txts_unique(
                        l,
                    ) implies false by {
                    if l.skip(k).len() == 1 {
                        assert(p@.subrange(nn as int, nn + 1)[0] == ']');
                    } else {
                        assert(p@.subrange(nn as int, nn + svcs_sep(l, k).len())[0] == ',');
                    }
                }
            }
            return None;
        }
    }
}

/// Where each piece of a rendered configuration document stands.
#[verifier::rlimit(100)]
proof fn lemma_config_probe(p: Seq<char>, c: ConfigModel)
    requires
        p == spec_render(c),
    ensures
        ({
            let c1 = "{\"version\":"@.len() as int;
            let c2 = c1 + spec_dec(c.version as nat).len();
            let c3 = c2 + ",\"hostname\":"@.len();
            let c4 = c3 + jstr(c.hostname).len();
            let c5 = c4 + ",\"services\":["@.len();
            let c6 = c5 + render_svcs(c.services).len() + 1;
            &&& frag_at(p, 0, "{\"version\":"@)
            &&& dec_at_end(p, c1, c.version as nat)
            &&& frag_at(p, c2, ",\"hostname\":"@)
            &&& frag_at(p, c3, jstr(c.hostname))
            &&& frag_at(p, c4, ",\"services\":["@)
            &&& frag_at(p, c5, render_svcs(c.services) + seq![']'])
            &&& c6 < p.len() && p[c6] == '}'
            &&& c6 + 1 == p.len()
        }),
{
    reveal_strlit(",\"hostname\":");
    reveal_strlit("]}");
    assert("]}"@ =~= seq![']'] + seq!['}']);
    let rest2 = ",\"hostname\":"@ + (jstr(c.hostname) + (",\"services\":["@ + ((render_svcs(
        c.services,
    ) + seq![']']) + seq!['}'])));
    assert(p =~= "{\"version\":"@ + (spec_dec(c.version as nat) + rest2));
    assert(p.subrange(0, p.len() as int) =~= p);
    assert(frag_at(p, 0, p));
    let c1 = "{\"version\":"@.len() as int;
    let c2 = c1 + spec_dec(c.version as nat).len();
    let c3 = c2 + ",\"hostname\":"@.len();
    let c4 = c3 + jstr(c.hostname).len();
    let c5 = c4 + ",\"services\":["@.len();
    lemma_frag_split(p, 0, "{\"version\":"@, spec_dec(c.version as nat) + rest2);
    lemma_frag_split(p, c1, spec_dec(c.version as nat), rest2);
    lemma_frag_split(
        p,
        c2,
        ",\"hostname\":"@,
        jstr(c.hostname) + (",\"services\":["@ + ((render_svcs(c.services) + seq![']']) + seq![
            '}'
        ])),
    );
    lemma_frag_split(
        p,
        c3,
        jstr(c.hostname),
        ",\"services\":["@ + ((render_svcs(c.services) + seq![']']) + seq!['}']),
    );
    lemma_frag_split(
        p,
        c4,
        ",\"services\":["@,
        (render_svcs(c.services) + seq![']']) + seq!['}'],
    );
    lemma_frag_split(p, c5, render_svcs(c.services) + seq![']'], seq!['}']);
    assert(p.subrange(c2, c2 + ",\"hostname\":"@.len())[0] == ',');
    let c6 = c5 + render_svcs(c.services).len() + 1;
    assert(p.subrange(c6, c6 + 1)[0] == '}');
}

/// Parses a configuration from its portable JSON form; `None` when the text
/// is not a document of exactly the rendered shape.  Every rendered document
/// whose metadata keys are distinct parses back to exactly the configuration
/// it was rendered from.
#[verifier::rlimit(100)]
pub fn parse_config(text: &str) -> (r: Option<AppConfig>)
    ensures
        forall|c: ConfigModel|
            text@ == #[trigger] spec_render(c) && cfg_txts_unique(c) ==> (r is Some && (r->0)@
                == c),
{
    let p = chars_of(text);
    let plen = p.len();
    proof {
        assert forall|c: ConfigModel|
            text@ == #[trigger] spec_render(c) && cfg_txts_unique(c) implies (frag_at(
            p@,
            0,
            "{\"version\":"@,
        ) && p@ == spec_render(c)) by {
            lemma_config_probe(p@, c);
        }
    }
    let n1 = match match_lit(&p, 0, &chars_of("{\"version\":")) {
        Some(n) => n,
        None => {
            return None;
        },
    };
    let pn = parse_num(&p, n1, u32::MAX);
    let (version, n2) = match pn {
        Some(v) => v,
        None => {
            proof {
                assert forall|c: ConfigModel|
                    text@ == #[trigger] spec_render(c) && cfg_txts_unique(c) implies false by {
                    lemma_config_probe(p@, c);
                }
            }
            return None;
        },
    };
    proof {
        assert forall|c: ConfigModel|
            text@ == #[trigger] spec_render(c) && cfg_txts_unique(c) implies (version == c.version
            && n2 == "{\"version\":"@.len() + spec_dec(c.version as nat).len()) by {
            lemma_config_probe(p@, c);
            assert(dec_at_end(p@, n1 as int, c.version as nat));
            assert(c.version as nat <= u32::MAX);
            assert(pn == Some(
                (
                    (c.version as nat) as u32,
                    (n1 + spec_dec(c.version as nat).len()) as usize,
                ),
            ));
            assert(plen as int == p@.len());
        }
    }
    let n3 = match match_lit(&p, n2, &chars_of(",\"hostname\":")) {
        Some(n) => n,
        None => {
            proof {
                assert forall|c: ConfigModel|
                    text@ == #[trigger] spec_render(c) && cfg_txts_unique(c) implies false by {
                    lemma_config_probe(p@, c);
                }
            }
            return None;
        },
    };
    let (hostname, n4) = match parse_string(&p, n3) {
        Some(v) => v,
        None => {
            proof {
                assert forall|c: ConfigModel|
                    text@ == #[trigger] spec_render(c) && cfg_txts_unique(c) implies false by {
                    lemma_config_probe(p@, c);
                }
            }
            return None;
        },
    };
    let n5 = match match_lit(&p, n4, &chars_of(",\"services\":[")) {
        Some(n) => n,
        None => {
            proof {
                assert forall|c: ConfigModel|
                    text@ == #[trigger] spec_render(c) && cfg_txts_unique(c) implies false by {
                    lemma_config_probe(p@, c);
                }
            }
            return None;
        },
    };
    let (services, end) = match parse_svcs(&p, n5) {
        Some(v) => v,
        None => {
            proof {
                assert forall|c: ConfigModel|
                    text@ == #[trigger] spec_render(c) && cfg_txts_unique(c) implies false by {
                    lemma_config_probe(p@, c);
                }
            }
            return None;
        },
    };
    if end < p.len() && p[end] == '}' && end + 1 == p.len() {
        let config = AppConfig { version, hostname, services };
        proof {
            assert forall|c: ConfigModel|
                text@ == #[trigger] spec_render(c) && cfg_txts_unique(c) implies config@ == c by {
                lemma_config_probe(p@, c);
                assert(svcs_view(services@) == c.services);
                assert(config@.services =~= c.services);
            }
        }
        Some(config)
    } else {
        proof {
            assert forall|c: ConfigModel|
                text@ == #[trigger] spec_render(c) && cfg_txts_unique(c) implies false by {
                lemma_config_probe(p@, c);
                assert(plen as int == p@.len());
            }
        }
        None
    }
}

/// Renders a configuration to its portable JSON form.
pub fn render_config(c: &AppConfig) -> (r: String)
    ensures
        r@ == spec_render(c@),
{
    let mut out = String::new();
    out.append("{\"version\":");
    push_dec(&mut out, c.version as u64);
    out.append(",\"hostname\":");
    push_jstr(&mut out, &c.hostname);
    out.append(",\"services\":[");
    let ghost head = out@;
    let n = c.services.len();
    let mut i: usize = 0;
    while i < n
        invariant
            n == c.services@.len(),
            i <= n,
            out@ == head + render_svcs(c@.services.take(i as int)),
            head == "{\"version\":"@ + spec_dec(c@.version as nat) + ",\"hostname\":"@ + jstr(
                c@.hostname,
            ) + ",\"services\":["@,
        decreases n - i,
    {
        let ghost pre = out@;
        if i > 0 {
            out.push(',');
        }
        push_svc(&mut out, &c.services[i]);
        proof {
            let sv = c@.services;
            assert(sv.take(i + 1 as int).drop_last() =~= sv.take(i as int));
            assert(sv.take(i + 1 as int).last() == sv[i as int]);
            if i > 0 {
                assert(out@ =~= pre + seq![','] + render_svc(sv[i as int]));
                assert(out@ =~= head + render_svcs(sv.take(i + 1 as int)));
            } else {
                assert(out@ =~= pre + render_svc(sv[i as int]));
                assert(out@ =~= head + render_svcs(sv.take(i + 1 as int)));
            }
        }
        i += 1;
    }
    out.append("]}");
    proof {
        assert(c@.services.take(n as int) =~= c@.services);
        assert(out@ =~= spec_render(c@));
    }
    out
}

} // verus!
