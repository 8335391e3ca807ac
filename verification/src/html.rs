//! Text for web pages and addresses.

use crate::text;
use vstd::prelude::*;

verus! {

/// What stands for a character in escaped text.
pub open spec fn escape_of(c: char) -> Seq<char> {
    if c == '&' {
        "&amp;"@
    } else if c == '<' {
        "&lt;"@
    } else if c == '>' {
        "&gt;"@
    } else if c == '"' {
        "&quot;"@
    } else if c == '\'' {
        "&#39;"@
    } else {
        seq![c]
    }
}

/// Text escaped for HTML, character by character.
pub open spec fn escaped(s: Seq<char>) -> Seq<char>
    decreases s.len(),
{
    if s.len() == 0 {
        s
    } else {
        escaped(s.drop_last()) + escape_of(s.last())
    }
}

/// Escapes text for use in HTML text or a quoted attribute.
pub fn escape_html(input: &str) -> (r: String)
    ensures
        r@ == escaped(input@),
{
    let chars = text::to_chars(input);
    let mut out: String = String::new();
    let mut i: usize = 0;
    proof {
        assert(chars@.take(0) =~= Seq::<char>::empty());
        assert(out@ =~= escaped(chars@.take(0)));
    }
    while i < chars.len()
        invariant
            i <= chars@.len(),
            out@ == escaped(chars@.take(i as int)),
        decreases chars.len() - i,
    {
        let c: char = chars[i];
        proof {
            assert(chars@.take(i + 1).drop_last() =~= chars@.take(i as int));
        }
        if c == '&' {
            out.append("&amp;");
        } else if c == '<' {
            out.append("&lt;");
        } else if c == '>' {
            out.append("&gt;");
        } else if c == '"' {
            out.append("&quot;");
        } else if c == '\'' {
            out.append("&#39;");
        } else {
            let ghost before = out@;
            out.push(c);
            proof {
                assert(out@ =~= before + seq![c]);
            }
        }
        i = i + 1;
    }
    proof {
        assert(chars@.take(i as int) =~= chars@);
    }
    out
}

/// Whether a byte stands for itself in a URI component.
pub open spec fn is_unreserved(b: u8) -> bool {
    ||| 0x41 <= b <= 0x5a
    ||| 0x61 <= b <= 0x7a
    ||| 0x30 <= b <= 0x39
    ||| b == 0x2d
    ||| b == 0x5f
    ||| b == 0x2e
    ||| b == 0x7e
    ||| b == 0x21
    ||| b == 0x2a
    ||| b == 0x27
    ||| b == 0x28
    ||| b == 0x29
}

/// The uppercase hexadecimal digit of `d`.
pub open spec fn hex_digit(d: u8) -> char {
    if d < 10 {
        ('0' as u8 + d) as char
    } else {
        ('A' as u8 + (d - 10)) as char
    }
}

/// What stands for a byte in a URI component: an unreserved byte itself, any
/// other a percent sign and its two hexadecimal digits.
pub open spec fn percent_of(b: u8) -> Seq<char> {
    if is_unreserved(b) {
        seq![b as char]
    } else {
        seq!['%', hex_digit(b / 16), hex_digit(b % 16)]
    }
}

/// Bytes encoded for a URI component, byte by byte.
pub open spec fn percent_encoded(bytes: Seq<u8>) -> Seq<char>
    decreases bytes.len(),
{
    if bytes.len() == 0 {
        Seq::<char>::empty()
    } else {
        percent_encoded(bytes.drop_last()) + percent_of(bytes.last())
    }
}

/// A text encoded for a URI component: its UTF-8 bytes, encoded.
pub open spec fn component(s: Seq<char>) -> Seq<char> {
    percent_encoded(vstd::utf8::encode_utf8(s))
}

/// A `/`-separated path with each of its segments encoded.
pub open spec fn rel_path_encoded(rel: Seq<char>) -> Seq<char> {
    text::join(text::split(rel, '/').map_values(|p: Seq<char>| component(p)), '/')
}

fn hex_char(d: u8) -> (r: char)
    requires
        d < 16,
    ensures
        r == hex_digit(d),
{
    if d < 10 {
        (0x30 + d) as char
    } else {
        (0x41 + (d - 10)) as char
    }
}

/// Whether a byte stands for itself in a URI component.
pub fn unreserved(b: u8) -> (r: bool)
    ensures
        r == is_unreserved(b),
{
    (0x41 <= b && b <= 0x5a) || (0x61 <= b && b <= 0x7a) || (0x30 <= b && b <= 0x39) || b == 0x2d
        || b == 0x5f || b == 0x2e || b == 0x7e || b == 0x21 || b == 0x2a || b == 0x27 || b == 0x28
        || b == 0x29
}

/// Percent-encodes one value the way `encodeURIComponent` does, which leaves
/// `!'()*` alone.
pub fn encode_component(input: &str) -> (r: String)
    ensures
        r@ == component(input@),
{
    let bytes = input.as_bytes();
    let mut out: String = String::new();
    let mut i: usize = 0;
    proof {
        assert(bytes@.take(0) =~= Seq::<u8>::empty());
        assert(out@ =~= Seq::<char>::empty());
    }
    while i < bytes.len()
        invariant
            i <= bytes@.len(),
            out@ == percent_encoded(bytes@.take(i as int)),
        decreases bytes.len() - i,
    {
        let b: u8 = bytes[i];
        let ghost before = out@;
        proof {
            assert(bytes@.take(i + 1).drop_last() =~= bytes@.take(i as int));
        }
        if unreserved(b) {
            out.push(b as char);
        } else {
            out.push('%');
            out.push(hex_char(b / 16));
            out.push(hex_char(b % 16));
        }
        proof {
            assert(out@ =~= before + percent_of(b));
        }
        i = i + 1;
    }
    proof {
        assert(bytes@.take(i as int) =~= bytes@);
    }
    out
}

/// Percent-encodes a `/`-separated relative path, leaving the separators alone.
pub fn encode_rel_path(rel: &str) -> (r: String)
    ensures
        r@ == rel_path_encoded(rel@),
{
    let parts = text::split_chars(&text::to_chars(rel), '/');
    let mut out: Vec<Vec<char>> = Vec::new();
    let ghost pieces = text::split(rel@, '/');
    let ghost f = |p: Seq<char>| component(p);
    let mut i: usize = 0;
    while i < parts.len()
        invariant
            i <= parts@.len(),
            text::views(parts@) == pieces,
            f == (|p: Seq<char>| component(p)),
            out@.len() == i,
            forall|j: int| 0 <= j < i ==> (#[trigger] out@[j])@ == component(pieces[j]),
        decreases parts.len() - i,
    {
        proof {
            assert(text::views(parts@)[i as int] == parts@[i as int]@);
        }
        let encoded = encode_component(&text::from_chars(&parts[i]));
        out.push(text::to_chars(&encoded));
        i = i + 1;
    }
    proof {
        assert(text::views(parts@).len() == parts@.len());
        assert(text::views(out@) =~= pieces.map_values(f));
    }
    text::from_chars(&text::join_chars(&out, '/'))
}

/// Where `c` occurs first in `s`, at `from` or later.
pub open spec fn index_from(s: Seq<char>, c: char, from: int) -> Option<int>
    decreases s.len() - from,
{
    if from < 0 || from >= s.len() {
        None
    } else if s[from] == c {
        Some(from)
    } else {
        index_from(s, c, from + 1)
    }
}

/// Where `//` occurs first in `s`, at `from` or later.
pub open spec fn double_slash_from(s: Seq<char>, from: int) -> Option<int>
    decreases s.len() - from,
{
    if from < 0 || from + 1 >= s.len() {
        None
    } else if s[from] == '/' && s[from + 1] == '/' {
        Some(from)
    } else {
        double_slash_from(s, from + 1)
    }
}

/// Where the host of an address begins: behind its first `//`.
pub open spec fn host_start(url: Seq<char>) -> int {
    match double_slash_from(url, 0) {
        Some(i) => i + 2,
        None => 0,
    }
}

/// Scheme, host and port of an address: everything before its path.
pub open spec fn origin(url: Seq<char>) -> Seq<char> {
    match index_from(url, '/', host_start(url)) {
        Some(i) => url.take(i),
        None => url,
    }
}

/// Scheme, host and port of an address: everything before its path.
pub fn origin_of(url: &str) -> (r: String)
    ensures
        r@ == origin(url@),
{
    let chars = text::to_chars(url);
    let start = find_host(&chars);
    let mut i: usize = start;
    while i < chars.len()
        invariant
            start <= i <= chars@.len(),
            chars@ == url@,
            start == host_start(url@),
            index_from(url@, '/', i as int) == index_from(url@, '/', start as int),
        decreases chars.len() - i,
    {
        if chars[i] == '/' {
            let head = text::copy_range(&chars, 0, i);
            proof {
                assert(head@ =~= url@.take(i as int));
            }
            return text::from_chars(&head);
        }
        i = i + 1;
    }
    url.to_owned()
}

fn find_host(chars: &Vec<char>) -> (r: usize)
    ensures
        r == host_start(chars@),
        r <= chars@.len(),
{
    let mut i: usize = 0;
    while i < chars.len() && i + 1 < chars.len()
        invariant
            i <= chars@.len(),
            double_slash_from(chars@, i as int) == double_slash_from(chars@, 0),
        decreases chars.len() - i,
    {
        if chars[i] == '/' && chars[i + 1] == '/' {
            return i + 2;
        }
        i = i + 1;
    }
    0
}

proof fn lemma_escaped_front(s: Seq<char>)
    requires
        s.len() > 0,
    ensures
        escaped(s) == escape_of(s.first()) + escaped(s.drop_first()),
    decreases s.len(),
{
    if s.len() == 1 {
        assert(s.drop_last() =~= Seq::<char>::empty());
        assert(s.drop_first() =~= Seq::<char>::empty());
        assert(escaped(s) =~= escape_of(s.first()) + escaped(s.drop_first()));
    } else {
        lemma_escaped_front(s.drop_last());
        assert(s.drop_last().drop_first() =~= s.drop_first().drop_last());
        assert(escape_of(s.first()) + escaped(s.drop_first().drop_last()) + escape_of(s.last())
            =~= escape_of(s.first()) + (escaped(s.drop_first().drop_last()) + escape_of(s.last())));
    }
}

/// No markup survives escaping: neither an angle bracket nor a quote.
pub proof fn law_escaped_text_holds_no_markup(s: Seq<char>)
    ensures
        !escaped(s).contains('<'),
        !escaped(s).contains('>'),
        !escaped(s).contains('"'),
        !escaped(s).contains('\''),
    decreases s.len(),
{
    if s.len() > 0 {
        law_escaped_text_holds_no_markup(s.drop_last());
        let front = escaped(s.drop_last());
        let code = escape_of(s.last());
        lemma_escape_codes(s.last());
        assert forall|c: char|
            (c == '<' || c == '>' || c == '"' || c == '\'') implies !(#[trigger] escaped(
            s,
        ).contains(c)) by {
            if escaped(s).contains(c) {
                let i = choose|i: int| 0 <= i < escaped(s).len() && escaped(s)[i] == c;
                if i < front.len() {
                    assert(front[i] == c);
                    assert(front.contains(c));
                } else {
                    assert(code[i - front.len()] == c);
                    assert(code.contains(c));
                }
            }
        }
    }
}

proof fn lemma_escape_codes(c: char)
    ensures
        !escape_of(c).contains('<'),
        !escape_of(c).contains('>'),
        !escape_of(c).contains('"'),
        !escape_of(c).contains('\''),
        escape_of(c).len() > 0,
        escape_of(c).len() == 1 ==> escape_of(c)[0] == c && c != '&',
        escape_of(c).len() > 1 ==> escape_of(c)[0] == '&' && escape_of(c)[1] == (if c == '&' {
            'a'
        } else if c == '<' {
            'l'
        } else if c == '>' {
            'g'
        } else if c == '"' {
            'q'
        } else {
            '#'
        }) && (c == '&' || c == '<' || c == '>' || c == '"' || c == '\''),
{
    reveal_strlit("&amp;");
    reveal_strlit("&lt;");
    reveal_strlit("&gt;");
    reveal_strlit("&quot;");
    reveal_strlit("&#39;");
}

/// The character an escape at the start of `s` stands for, and how long it is.
pub open spec fn entity_at(s: Seq<char>) -> Option<(char, nat)> {
    if "&amp;"@.is_prefix_of(s) {
        Some(('&', 5))
    } else if "&lt;"@.is_prefix_of(s) {
        Some(('<', 4))
    } else if "&gt;"@.is_prefix_of(s) {
        Some(('>', 4))
    } else if "&quot;"@.is_prefix_of(s) {
        Some(('"', 6))
    } else if "&#39;"@.is_prefix_of(s) {
        Some(('\'', 5))
    } else {
        None
    }
}

/// A text with every escape replaced by the character it stands for, in one
/// pass.
pub open spec fn unescaped(s: Seq<char>) -> Seq<char>
    decreases s.len(),
{
    if s.len() == 0 {
        s
    } else {
        proof {
            reveal_strlit("&amp;");
            reveal_strlit("&lt;");
            reveal_strlit("&gt;");
            reveal_strlit("&quot;");
            reveal_strlit("&#39;");
        }
        match entity_at(s) {
            Some((c, n)) => seq![c] + unescaped(s.skip(n as int)),
            None => seq![s.first()] + unescaped(s.drop_first()),
        }
    }
}

/// An escape is recognised, and a character that stands for itself is not taken
/// for one, whatever follows.
proof fn lemma_entity(c: char, rest: Seq<char>)
    ensures
        escape_of(c).len() > 1 ==> entity_at(escape_of(c) + rest) == Some((c, escape_of(c).len())),
        escape_of(c).len() == 1 ==> entity_at(escape_of(c) + rest) is None,
        forall|i: int| 0 < i < escape_of(c).len() ==> #[trigger] escape_of(c)[i] != '&',
{
    reveal_strlit("&amp;");
    reveal_strlit("&lt;");
    reveal_strlit("&gt;");
    reveal_strlit("&quot;");
    reveal_strlit("&#39;");
    lemma_escape_codes(c);
    let all = escape_of(c) + rest;
    assert(all[0] == escape_of(c)[0]);
    if escape_of(c).len() > 1 {
        assert(all[1] == escape_of(c)[1]);
        assert(escape_of(c) =~= all.subrange(0, escape_of(c).len() as int));
    }
    lemma_prefix_starts("&amp;"@, all);
    lemma_prefix_starts("&lt;"@, all);
    lemma_prefix_starts("&gt;"@, all);
    lemma_prefix_starts("&quot;"@, all);
    lemma_prefix_starts("&#39;"@, all);
}

/// A text begins as its prefixes do.
proof fn lemma_prefix_starts(prefix: Seq<char>, s: Seq<char>)
    requires
        prefix.len() >= 2,
    ensures
        prefix.is_prefix_of(s) ==> s.len() >= 2 && s[0] == prefix[0] && s[1] == prefix[1],
{
    if prefix.is_prefix_of(s) {
        assert(s.subrange(0, prefix.len() as int)[0] == s[0]);
        assert(s.subrange(0, prefix.len() as int)[1] == s[1]);
    }
}

/// Unescaping an escaped text gives the text back.
pub proof fn law_unescaping_gives_the_text_back(s: Seq<char>)
    ensures
        unescaped(escaped(s)) == s,
    decreases s.len(),
{
    if s.len() > 0 {
        let code = escape_of(s.first());
        let rest = escaped(s.drop_first());
        lemma_escaped_front(s);
        lemma_escape_codes(s.first());
        lemma_entity(s.first(), rest);
        law_unescaping_gives_the_text_back(s.drop_first());
        assert(escaped(s).skip(code.len() as int) =~= rest);
        assert(code.len() == 1 ==> escaped(s).drop_first() =~= rest);
        assert(seq![s.first()] + s.drop_first() =~= s);
    }
}

/// Every ampersand in an escaped text begins an escape.
pub proof fn law_every_ampersand_begins_an_escape(s: Seq<char>, i: int)
    requires
        0 <= i < escaped(s).len(),
        escaped(s)[i] == '&',
    ensures
        entity_at(escaped(s).skip(i)) is Some,
    decreases s.len(),
{
    if s.len() > 0 {
        let code = escape_of(s.first());
        let rest = escaped(s.drop_first());
        lemma_escaped_front(s);
        lemma_escape_codes(s.first());
        lemma_entity(s.first(), rest);
        if i < code.len() {
            assert(code[i] == '&');
            assert(escaped(s).skip(0) =~= code + rest);
        } else {
            assert(rest[i - code.len()] == '&');
            law_every_ampersand_begins_an_escape(s.drop_first(), i - code.len());
            assert(escaped(s).skip(i) =~= rest.skip(i - code.len()));
        }
    }
}

/// Escaping a text in parts comes to the same as escaping it whole.
pub proof fn law_escaping_goes_part_by_part(a: Seq<char>, b: Seq<char>)
    ensures
        escaped(a + b) == escaped(a) + escaped(b),
    decreases b.len(),
{
    if b.len() == 0 {
        assert(a + b =~= a);
        assert(escaped(a) + escaped(b) =~= escaped(a));
    } else {
        law_escaping_goes_part_by_part(a, b.drop_last());
        assert((a + b).drop_last() =~= a + b.drop_last());
        assert(escaped(a + b) =~= escaped(a) + escaped(b));
    }
}

/// Escaping loses nothing: different texts stay different.
pub proof fn law_escaping_is_injective(a: Seq<char>, b: Seq<char>)
    requires
        escaped(a) == escaped(b),
    ensures
        a == b,
    decreases a.len(),
{
    if a.len() > 0 {
        lemma_escaped_front(a);
        lemma_escape_codes(a.first());
    }
    if b.len() > 0 {
        lemma_escaped_front(b);
        lemma_escape_codes(b.first());
    }
    if a.len() == 0 || b.len() == 0 {
        assert(escaped(a).len() == 0);
        assert(a =~= b);
    } else {
        let ca = escape_of(a.first());
        let cb = escape_of(b.first());
        assert(escaped(a)[0] == ca[0] && escaped(b)[0] == cb[0]);
        if ca.len() > 1 && cb.len() > 1 {
            assert(escaped(a)[1] == ca[1] && escaped(b)[1] == cb[1]);
        }
        assert(a.first() == b.first());
        let ra = escaped(a.drop_first());
        let rb = escaped(b.drop_first());
        assert(ra =~= escaped(a).skip(ca.len() as int));
        assert(rb =~= escaped(b).skip(cb.len() as int));
        law_escaping_is_injective(a.drop_first(), b.drop_first());
        assert(a =~= seq![a.first()] + a.drop_first());
        assert(b =~= seq![b.first()] + b.drop_first());
    }
}

proof fn lemma_percent_front(s: Seq<u8>)
    requires
        s.len() > 0,
    ensures
        percent_encoded(s) == percent_of(s.first()) + percent_encoded(s.drop_first()),
    decreases s.len(),
{
    if s.len() == 1 {
        assert(s.drop_last() =~= Seq::<u8>::empty());
        assert(s.drop_first() =~= Seq::<u8>::empty());
        assert(percent_encoded(s) =~= percent_of(s.first()) + percent_encoded(s.drop_first()));
    } else {
        lemma_percent_front(s.drop_last());
        assert(s.drop_last().drop_first() =~= s.drop_first().drop_last());
        assert(percent_of(s.first()) + percent_encoded(s.drop_first().drop_last()) + percent_of(
            s.last(),
        ) =~= percent_of(s.first()) + (percent_encoded(s.drop_first().drop_last()) + percent_of(
            s.last(),
        )));
    }
}

proof fn lemma_percent_codes(b: u8)
    ensures
        percent_of(b).len() == 1 || percent_of(b).len() == 3,
        percent_of(b).len() == 1 ==> percent_of(b)[0] as int == b as int && b != 0x25,
        percent_of(b).len() == 3 ==> percent_of(b)[0] == '%',
        !percent_of(b).contains('/'),
{
    assert(b / 16 < 16 && b % 16 < 16);
    lemma_hex_digit(b / 16);
    lemma_hex_digit(b % 16);
}

proof fn lemma_hex_digit(d: u8)
    requires
        d < 16,
    ensures
        hex_digit(d) as int == if d < 10 {
            0x30 + d
        } else {
            0x37 + d
        },
        hex_digit(d) != '/',
{
}

/// Encoding bytes loses nothing.
pub proof fn law_percent_encoding_is_injective(a: Seq<u8>, b: Seq<u8>)
    requires
        percent_encoded(a) == percent_encoded(b),
    ensures
        a == b,
    decreases a.len(),
{
    if a.len() > 0 {
        lemma_percent_front(a);
        lemma_percent_codes(a.first());
    }
    if b.len() > 0 {
        lemma_percent_front(b);
        lemma_percent_codes(b.first());
    }
    if a.len() == 0 || b.len() == 0 {
        assert(percent_encoded(a).len() == 0);
        assert(a =~= b);
    } else {
        let x = a.first();
        let y = b.first();
        let ca = percent_of(x);
        let cb = percent_of(y);
        let ea = percent_encoded(a);
        let eb = percent_encoded(b);
        assert(ea[0] == ca[0] && eb[0] == cb[0]);
        if ca.len() == 3 && cb.len() == 3 {
            assert(ea[1] == ca[1] && eb[1] == cb[1]);
            assert(ea[2] == ca[2] && eb[2] == cb[2]);
            lemma_hex_digit(x / 16);
            lemma_hex_digit(x % 16);
            lemma_hex_digit(y / 16);
            lemma_hex_digit(y % 16);
            assert(x / 16 == y / 16 && x % 16 == y % 16);
        }
        assert(x == y);
        assert(percent_encoded(a.drop_first()) =~= ea.skip(ca.len() as int));
        assert(percent_encoded(b.drop_first()) =~= eb.skip(cb.len() as int));
        law_percent_encoding_is_injective(a.drop_first(), b.drop_first());
        assert(a =~= seq![x] + a.drop_first());
        assert(b =~= seq![y] + b.drop_first());
    }
}

/// The number a hexadecimal digit stands for.
pub open spec fn hex_value(c: char) -> u8 {
    if '0' <= c <= '9' {
        (c as u32 - 0x30) as u8
    } else {
        (c as u32 - 0x37) as u8
    }
}

/// The bytes a percent-encoded text stands for.
pub open spec fn percent_decoded(s: Seq<char>) -> Seq<u8>
    decreases s.len(),
{
    if s.len() == 0 {
        Seq::empty()
    } else if s[0] == '%' && s.len() >= 3 {
        seq![(hex_value(s[1]) * 16 + hex_value(s[2])) as u8] + percent_decoded(s.skip(3))
    } else {
        seq![s[0] as u8] + percent_decoded(s.drop_first())
    }
}

/// Whether a character is an uppercase hexadecimal digit.
pub open spec fn is_hex(c: char) -> bool {
    '0' <= c <= '9' || 'A' <= c <= 'F'
}

/// Whether a text is made of unreserved characters, and of percent signs with two
/// uppercase hexadecimal digits that stand for a byte that is reserved.
pub open spec fn is_percent_text(s: Seq<char>) -> bool
    decreases s.len(),
{
    if s.len() == 0 {
        true
    } else if s[0] == '%' {
        &&& s.len() >= 3
        &&& is_hex(s[1]) && is_hex(s[2])
        &&& !is_unreserved((hex_value(s[1]) * 16 + hex_value(s[2])) as u8)
        &&& is_percent_text(s.skip(3))
    } else {
        s[0] as u32 <= 0x7f && is_unreserved(s[0] as u8) && is_percent_text(s.drop_first())
    }
}

/// Decoding gives the bytes back, and only unreserved characters and the escapes
/// of reserved bytes stand in an encoding.
pub proof fn law_percent_decoding_gives_the_bytes_back(bytes: Seq<u8>)
    ensures
        percent_decoded(percent_encoded(bytes)) == bytes,
        is_percent_text(percent_encoded(bytes)),
    decreases bytes.len(),
{
    if bytes.len() > 0 {
        let b = bytes.first();
        let code = percent_of(b);
        let all = percent_encoded(bytes);
        let rest = percent_encoded(bytes.drop_first());
        lemma_percent_front(bytes);
        lemma_percent_codes(b);
        law_percent_decoding_gives_the_bytes_back(bytes.drop_first());
        assert(all[0] == code[0]);
        if code.len() == 3 {
            assert(all[1] == code[1] && all[2] == code[2]);
            assert(b / 16 < 16 && b % 16 < 16);
            lemma_hex_digit(b / 16);
            lemma_hex_digit(b % 16);
            assert(hex_value(all[1]) == b / 16 && hex_value(all[2]) == b % 16);
            assert(all.skip(3) =~= rest);
        } else {
            assert(all.drop_first() =~= rest);
        }
        assert(seq![b] + bytes.drop_first() =~= bytes);
    }
}

/// Encoding bytes in parts comes to the same as encoding them whole.
pub proof fn law_percent_encoding_goes_part_by_part(a: Seq<u8>, b: Seq<u8>)
    ensures
        percent_encoded(a + b) == percent_encoded(a) + percent_encoded(b),
    decreases b.len(),
{
    if b.len() == 0 {
        assert(a + b =~= a);
        assert(percent_encoded(a) + percent_encoded(b) =~= percent_encoded(a));
    } else {
        law_percent_encoding_goes_part_by_part(a, b.drop_last());
        assert((a + b).drop_last() =~= a + b.drop_last());
        assert(percent_encoded(a + b) =~= percent_encoded(a) + percent_encoded(b));
    }
}

proof fn lemma_utf8_append(a: Seq<char>, b: Seq<char>)
    ensures
        vstd::utf8::encode_utf8(a + b) == vstd::utf8::encode_utf8(a) + vstd::utf8::encode_utf8(b),
    decreases a.len(),
{
    if a.len() == 0 {
        assert(a + b =~= b);
        assert(vstd::utf8::encode_utf8(a) =~= Seq::<u8>::empty());
    } else {
        lemma_utf8_append(a.drop_first(), b);
        assert((a + b).drop_first() =~= a.drop_first() + b);
        assert((a + b)[0] == a[0]);
    }
    assert(vstd::utf8::encode_utf8(a + b) =~= vstd::utf8::encode_utf8(a)
        + vstd::utf8::encode_utf8(b));
}

/// Decoding an encoded value gives its UTF-8 bytes back, and with them the value;
/// only unreserved characters and the escapes of reserved bytes stand in it; and
/// a value may be encoded part by part.
pub proof fn law_components_are_decoded(a: Seq<char>, b: Seq<char>)
    ensures
        percent_decoded(component(a)) == vstd::utf8::encode_utf8(a),
        vstd::utf8::decode_utf8(percent_decoded(component(a))) == a,
        is_percent_text(component(a)),
        component(a + b) == component(a) + component(b),
{
    law_percent_decoding_gives_the_bytes_back(vstd::utf8::encode_utf8(a));
    vstd::utf8::encode_utf8_decode_utf8(a);
    lemma_utf8_append(a, b);
    law_percent_encoding_goes_part_by_part(
        vstd::utf8::encode_utf8(a),
        vstd::utf8::encode_utf8(b),
    );
}

/// Different values are encoded differently.
pub proof fn law_components_are_injective(a: Seq<char>, b: Seq<char>)
    requires
        component(a) == component(b),
    ensures
        a == b,
{
    law_percent_encoding_is_injective(
        vstd::utf8::encode_utf8(a),
        vstd::utf8::encode_utf8(b),
    );
    vstd::utf8::encode_utf8_decode_utf8(a);
    vstd::utf8::encode_utf8_decode_utf8(b);
}

proof fn lemma_no_slash(bytes: Seq<u8>)
    ensures
        !percent_encoded(bytes).contains('/'),
    decreases bytes.len(),
{
    if bytes.len() > 0 {
        lemma_no_slash(bytes.drop_last());
        lemma_percent_codes(bytes.last());
        let front = percent_encoded(bytes.drop_last());
        let code = percent_of(bytes.last());
        let all = percent_encoded(bytes);
        if all.contains('/') {
            let i = choose|i: int| 0 <= i < all.len() && all[i] == '/';
            if i < front.len() {
                assert(front[i] == '/');
                assert(front.contains('/'));
            } else {
                assert(code[i - front.len()] == '/');
                assert(code.contains('/'));
            }
        }
    }
}

/// The separators of a path survive its encoding, and only those: the encoded
/// path has the same segments, each encoded.
pub proof fn law_separators_survive_encoding(rel: Seq<char>)
    ensures
        text::split(rel_path_encoded(rel), '/') == text::split(rel, '/').map_values(
            |p: Seq<char>| component(p),
        ),
{
    let parts = text::split(rel, '/').map_values(|p: Seq<char>| component(p));
    text::lemma_split_pieces(rel, '/');
    assert forall|i: int| 0 <= i < parts.len() implies !(#[trigger] parts[i]).contains('/') by {
        lemma_no_slash(vstd::utf8::encode_utf8(text::split(rel, '/')[i]));
    }
    text::lemma_split_join(parts, '/');
}

proof fn lemma_index_from(s: Seq<char>, c: char, from: int)
    requires
        0 <= from,
    ensures
        index_from(s, c, from) matches Some(i) ==> from <= i < s.len() && s[i] == c,
    decreases s.len() - from,
{
    if from < s.len() && s[from] != c {
        lemma_index_from(s, c, from + 1);
    }
}

proof fn lemma_double_slash(s: Seq<char>, from: int)
    requires
        0 <= from,
    ensures
        double_slash_from(s, from) matches Some(i) ==> from <= i && i + 1 < s.len(),
    decreases s.len() - from,
{
    if from + 1 < s.len() && !(s[from] == '/' && s[from + 1] == '/') {
        lemma_double_slash(s, from + 1);
    }
}

/// An origin is what an address begins with, up to a slash or its end.
pub proof fn law_an_origin_is_cut_at_a_slash(url: Seq<char>)
    ensures
        origin(url).is_prefix_of(url),
        origin(url) == url || url[origin(url).len() as int] == '/',
{
    lemma_double_slash(url, 0);
    lemma_index_from(url, '/', host_start(url));
}

proof fn lemma_first_double_slash(s: Seq<char>, at: int, from: int)
    requires
        0 <= from <= at,
        at + 1 < s.len(),
        s[at] == '/',
        s[at + 1] == '/',
        forall|i: int| from <= i < at ==> #[trigger] s[i] != '/',
    ensures
        double_slash_from(s, from) == Some(at),
    decreases at - from,
{
    if from < at {
        assert(s[from] != '/');
        lemma_first_double_slash(s, at, from + 1);
    }
}

proof fn lemma_first_index(s: Seq<char>, c: char, at: int, from: int)
    requires
        0 <= from <= at <= s.len(),
        forall|i: int| from <= i < at ==> #[trigger] s[i] != c,
        at < s.len() ==> s[at] == c,
    ensures
        index_from(s, c, from) == if at < s.len() {
            Some(at)
        } else {
            None
        },
    decreases at - from,
{
    if from < at {
        assert(s[from] != c);
        lemma_first_index(s, c, at, from + 1);
    }
}

/// The origin of an address is its scheme and host, whatever path comes behind.
pub proof fn law_the_origin_is_scheme_and_host(
    scheme: Seq<char>,
    host: Seq<char>,
    rest: Seq<char>,
)
    requires
        !scheme.contains('/'),
        !host.contains('/'),
    ensures
        origin(scheme + "://"@ + host) == scheme + "://"@ + host,
        origin(scheme + "://"@ + host + "/"@ + rest) == scheme + "://"@ + host,
{
    reveal_strlit("://");
    reveal_strlit("/");
    let short = scheme + "://"@ + host;
    let long = short + "/"@ + rest;
    let at = scheme.len() as int + 1;
    assert forall|i: int| 0 <= i < at implies #[trigger] long[i] != '/' && short[i] != '/' by {
        if i < scheme.len() {
            assert(scheme.contains(scheme[i]));
            assert(long[i] == scheme[i]);
            assert(short[i] == scheme[i]);
        }
    }
    lemma_first_double_slash(short, at, 0);
    lemma_first_double_slash(long, at, 0);
    let end = short.len() as int;
    assert forall|i: int| at + 2 <= i < end implies #[trigger] long[i] != '/' && short[i] != '/' by {
        assert(short[i] == host[i - at - 2]);
        assert(long[i] == host[i - at - 2]);
        assert(host.contains(host[i - at - 2]));
    }
    lemma_first_index(short, '/', end, at + 2);
    lemma_first_index(long, '/', end, at + 2);
    assert(long.take(end) =~= short);
}

/// Which bytes stand for themselves in an encoded value: letters, digits and
/// `-_.~!*'()`. Every other byte is a percent sign and two hexadecimal digits.
pub proof fn law_which_bytes_stand_for_themselves(b: u8)
    ensures
        ({
            let c = b as char;
            let kept = 'a' <= c <= 'z' || 'A' <= c <= 'Z' || '0' <= c <= '9' || c == '-' || c == '_'
                || c == '.' || c == '~' || c == '!' || c == '*' || c == '\'' || c == '(' || c
                == ')';
            &&& kept ==> percent_encoded(seq![b]) == seq![c]
            &&& !kept ==> percent_encoded(seq![b]).len() == 3 && percent_encoded(seq![b])[0] == '%'
        }),
{
    assert(seq![b].drop_last() =~= Seq::<u8>::empty());
    assert(percent_encoded(seq![b].drop_last()) + percent_of(b) =~= percent_of(b));
}

} // verus!
