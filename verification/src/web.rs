//! Web search: the addresses that are asked, and what is read from the
//! replies.
use crate::bytes::{alnum, is_alnum};
use crate::text::{
    chars_of, find_chars, find_text, has_text, lemma_find_text, lowercase, replaced_text, shortened,
    str_eq, str_has, str_replace, str_shorten, str_starts, str_trim, string_of, text_starts,
    trimmed,
};
use vstd::prelude::*;
use vstd::utf8::{encode_utf8, is_ascii_chars_encode_utf8};

verus! {

/// A hit of a web search.
pub struct WebResult {
    pub title: String,
    pub url: String,
    pub snippet: String,
}

/// The title, the address and the snippet of a hit.
pub type Hit = (Seq<char>, Seq<char>, Seq<char>);

/// The hits of a list.
pub open spec fn hits(v: Seq<WebResult>) -> Seq<Hit> {
    v.map_values(|r: WebResult| (r.title@, r.url@, r.snippet@))
}

/// A byte that stands for itself in an address.
pub open spec fn is_plain(b: u8) -> bool {
    ||| is_alnum(b)
    ||| b as char == '-'
    ||| b as char == '_'
    ||| b as char == '.'
    ||| b as char == '~'
}

/// An uppercase hexadecimal digit.
pub open spec fn hex_digit(n: int) -> char {
    if n < 10 {
        (48 + n) as char
    } else {
        (55 + n) as char
    }
}

/// Bytes as they stand in an address: the plain ones, and the others as `%`
/// and two hexadecimal digits.
pub open spec fn url_encoded(b: Seq<u8>) -> Seq<char>
    decreases b.len(),
{
    if b.len() == 0 {
        Seq::empty()
    } else if is_plain(b.last()) {
        url_encoded(b.drop_last()).push(b.last() as char)
    } else {
        url_encoded(b.drop_last()).push('%').push(hex_digit(b.last() as int / 16)).push(
            hex_digit(b.last() as int % 16),
        )
    }
}

/// An uppercase hexadecimal digit.
fn hex(n: u8) -> (r: char)
    requires
        n < 16,
    ensures
        r == hex_digit(n as int),
{
    if n < 10 {
        (48 + n) as char
    } else {
        (55 + n) as char
    }
}

/// A text as it stands in an address.
pub fn urlencode(s: &str) -> (r: String)
    ensures
        r@ == url_encoded(encode_utf8(s@)),
{
    let b = s.as_bytes();
    let mut out = String::new();
    let mut i: usize = 0;
    assert(b@.take(0) =~= Seq::<u8>::empty());
    while i < b.len()
        invariant
            i <= b@.len(),
            out@ == url_encoded(b@.take(i as int)),
        decreases b@.len() - i,
    {
        assert(b@.take(i + 1).drop_last() =~= b@.take(i as int));
        assert(b@.take(i + 1).last() == b@[i as int]);
        let c: u8 = b[i];
        let ch = c as char;
        if alnum(c) || ch == '-' || ch == '_' || ch == '.' || ch == '~' {
            out.push(ch);
        } else {
            out.push('%');
            out.push(hex(c / 16));
            out.push(hex(c % 16));
        }
        i = i + 1;
    }
    assert(b@.take(i as int) =~= b@);
    out
}

/// Two different texts stand differently in an address.
pub proof fn law_urlencode_is_injective(a: Seq<u8>, b: Seq<u8>)
    requires
        url_encoded(a) == url_encoded(b),
    ensures
        a == b,
    decreases a.len() + b.len(),
{
    if a.len() == 0 {
        if b.len() > 0 {
            assert(url_encoded(b).len() > 0);
        }
        assert(a =~= b);
    } else if b.len() == 0 {
        assert(url_encoded(a).len() > 0);
    } else {
        let x = url_encoded(a);
        let y = url_encoded(b);
        let n = x.len() as int;
        lemma_percent_place(a);
        lemma_percent_place(b);
        if is_plain(a.last()) {
            assert(is_plain(b.last()));
            assert(x.drop_last() =~= url_encoded(a.drop_last()));
            assert(y.drop_last() =~= url_encoded(b.drop_last()));
            assert(x.last() == a.last() as char);
            assert(y.last() == b.last() as char);
        } else {
            assert(!is_plain(b.last()));
            assert(x.take(n - 3) =~= url_encoded(a.drop_last()));
            assert(y.take(n - 3) =~= url_encoded(b.drop_last()));
            assert(x[n - 2] == hex_digit(a.last() as int / 16));
            assert(x[n - 1] == hex_digit(a.last() as int % 16));
            assert(y[n - 2] == hex_digit(b.last() as int / 16));
            assert(y[n - 1] == hex_digit(b.last() as int % 16));
            assert(a.last() as int == 16 * (a.last() as int / 16) + a.last() as int % 16);
            assert(b.last() as int == 16 * (b.last() as int / 16) + b.last() as int % 16);
        }
        law_urlencode_is_injective(a.drop_last(), b.drop_last());
        assert(a =~= a.drop_last().push(a.last()));
        assert(b =~= b.drop_last().push(b.last()));
    }
}

/// The third character from the end is a `%` only where the last byte is not
/// plain; the last two never are.
proof fn lemma_percent_place(a: Seq<u8>)
    ensures
        ({
            let x = url_encoded(a);
            let n = x.len() as int;
            &&& n >= 1 ==> x[n - 1] != '%'
            &&& n >= 2 ==> (a.len() > 0 && is_plain(a.last()) ==> (x[n - 2] != '%'))
            &&& a.len() > 0 && !is_plain(a.last()) ==> n >= 3 && x[n - 3] == '%' && x[n - 2]
                != '%'
            &&& a.len() > 0 && is_plain(a.last()) ==> (n >= 3 ==> x[n - 3] != '%')
        }),
    decreases a.len(),
{
    if a.len() > 0 {
        lemma_percent_place(a.drop_last());
    }
}

proof fn lemma_encoded_add(a: Seq<u8>, b: Seq<u8>)
    ensures
        url_encoded(a + b) == url_encoded(a) + url_encoded(b),
    decreases b.len(),
{
    if b.len() == 0 {
        assert(a + b =~= a);
        assert(url_encoded(a) + url_encoded(b) =~= url_encoded(a));
    } else {
        assert((a + b).drop_last() =~= a + b.drop_last());
        assert((a + b).last() == b.last());
        lemma_encoded_add(a, b.drop_last());
        assert(url_encoded(a + b) =~= url_encoded(a) + url_encoded(b));
    }
}

proof fn lemma_utf8_add(a: Seq<char>, b: Seq<char>)
    ensures
        encode_utf8(a + b) == encode_utf8(a) + encode_utf8(b),
    decreases a.len(),
{
    if a.len() == 0 {
        assert(a + b =~= b);
        assert(encode_utf8(a) + encode_utf8(b) =~= encode_utf8(b));
    } else {
        assert((a + b).drop_first() =~= a.drop_first() + b);
        assert((a + b)[0] == a[0]);
        lemma_utf8_add(a.drop_first(), b);
        assert(encode_utf8(a + b) =~= encode_utf8(a) + encode_utf8(b));
    }
}

/// Two texts behind one another stand in an address as each of them does.
pub proof fn law_urlencode_joins(a: Seq<char>, b: Seq<char>)
    ensures
        url_encoded(encode_utf8(a + b)) == url_encoded(encode_utf8(a)) + url_encoded(
            encode_utf8(b),
        ),
{
    lemma_utf8_add(a, b);
    lemma_encoded_add(encode_utf8(a), encode_utf8(b));
}

/// The number that a hexadecimal digit stands for.
pub open spec fn digit_value(c: char) -> int {
    if c as int >= 65 {
        c as int - 55
    } else {
        c as int - 48
    }
}

/// The bytes that stand in an address: `%` and two hexadecimal digits for one
/// byte, and each other character for itself.
pub open spec fn url_decoded(x: Seq<char>) -> Seq<u8>
    decreases x.len(),
{
    if x.len() == 0 {
        Seq::empty()
    } else if x[0] == '%' && x.len() >= 3 {
        seq![(16 * digit_value(x[1]) + digit_value(x[2])) as u8] + url_decoded(x.skip(3))
    } else {
        seq![x[0] as u8] + url_decoded(x.skip(1))
    }
}

/// What stands in an address is read back as the bytes that were put in.
pub proof fn law_urldecode_reads_back(b: Seq<u8>)
    ensures
        url_decoded(url_encoded(b)) == b,
    decreases b.len(),
{
    if b.len() > 0 {
        let first = seq![b[0]];
        let rest = b.drop_first();
        let x = url_encoded(b);
        assert(b =~= first + rest);
        lemma_encoded_add(first, rest);
        law_urldecode_reads_back(rest);
        assert(first.drop_last() =~= Seq::<u8>::empty());
        assert(url_encoded(first.drop_last()) =~= Seq::<char>::empty());
        if is_plain(b[0]) {
            assert(url_encoded(first) =~= seq![b[0] as char]);
            assert(x[0] == b[0] as char);
            assert(x[0] != '%');
            assert(x.skip(1) =~= url_encoded(rest));
        } else {
            let hi = b[0] as int / 16;
            let lo = b[0] as int % 16;
            assert(url_encoded(first) =~= seq!['%', hex_digit(hi), hex_digit(lo)]);
            assert(x[0] == '%' && x[1] == hex_digit(hi) && x[2] == hex_digit(lo));
            assert(x.skip(3) =~= url_encoded(rest));
            assert(digit_value(x[1]) == hi);
            assert(digit_value(x[2]) == lo);
        }
        assert(url_decoded(x) =~= b);
    }
}

/// A character that stands for itself in an address.
pub open spec fn is_plain_char(c: char) -> bool {
    c <= '\u{7f}' && is_plain(c as u8)
}

/// An uppercase hexadecimal digit.
pub open spec fn is_hex_digit(c: char) -> bool {
    ('0' <= c && c <= '9') || ('A' <= c && c <= 'F')
}

/// What stands in an address is made of plain characters, and of `%` with two
/// uppercase hexadecimal digits behind it.
pub proof fn law_urlencode_is_ascii(b: Seq<u8>, i: int)
    requires
        0 <= i < url_encoded(b).len(),
    ensures
        ({
            let x = url_encoded(b);
            if x[i] == '%' {
                i + 2 < x.len() && is_hex_digit(x[i + 1]) && is_hex_digit(x[i + 2])
            } else {
                is_plain_char(x[i])
            }
        }),
    decreases b.len(),
{
    let head = url_encoded(b.drop_last());
    if i < head.len() {
        law_urlencode_is_ascii(b.drop_last(), i);
    } else {
        assert(is_plain(48) && is_plain(57) && is_plain(65) && is_plain(70));
    }
}

proof fn lemma_char_from_zero(c: char)
    ensures
        '\0' <= c,
{
}

/// A text of plain characters stands in an address as it is.
pub proof fn law_plain_text_stays(s: Seq<char>)
    requires
        forall|i: int| 0 <= i < s.len() ==> is_plain_char(#[trigger] s[i]),
    ensures
        url_encoded(encode_utf8(s)) == s,
    decreases s.len(),
{
    if s.len() == 0 {
        assert(encode_utf8(s).len() == 0);
        assert(url_encoded(encode_utf8(s)) =~= s);
    } else {
        let head = s.drop_last();
        let last = seq![s.last()];
        assert(s =~= head + last);
        assert forall|i: int| 0 <= i < head.len() implies is_plain_char(
            #[trigger] head[i],
        ) by {
            assert(head[i] == s[i]);
        }
        law_plain_text_stays(head);
        law_urlencode_joins(head, last);
        let c = s[s.len() - 1];
        assert(is_plain_char(c));
        assert forall|i: int| 0 <= i < last.len() implies '\0' <= #[trigger] last[i]
            && last[i] <= '\u{7f}' by {
            assert(last[i] == c);
            lemma_char_from_zero(c);
        }
        is_ascii_chars_encode_utf8(last);
        let b = encode_utf8(last);
        assert(last[0] == c);
        assert(b[0] == c as u8);
        assert(b =~= seq![c as u8]);
        assert((c as u8) as char == c);
        assert(b.drop_last() =~= Seq::<u8>::empty());
        assert(is_plain(b.last()));
        assert(url_encoded(b.drop_last()) =~= Seq::<char>::empty());
        assert(url_encoded(b) =~= last);
    }
}

/// A text that begins or looks like an address.
pub open spec fn url_like(s: Seq<char>) -> bool {
    let low = lowercase(s);
    ||| text_starts(low, "http://"@)
    ||| text_starts(low, "https://"@)
    ||| has_text(low, ".com"@)
    ||| has_text(low, ".net"@)
    ||| has_text(low, ".org"@)
}

/// Whether a text begins or looks like an address.
pub fn looks_like_url(value: &str) -> (r: bool)
    ensures
        r == url_like(value@),
{
    let lower = value.to_lowercase();
    let l = lower.as_str();
    str_starts(l, "http://") || str_starts(l, "https://") || str_has(l, ".com") || str_has(
        l,
        ".net",
    ) || str_has(l, ".org")
}

/// The address that a query opens in the browser.
pub open spec fn opened(query: Seq<char>) -> Option<Seq<char>> {
    let q = trimmed(query);
    if q.len() == 0 {
        None
    } else if url_like(q) {
        if text_starts(q, "http://"@) || text_starts(q, "https://"@) {
            Some(q)
        } else {
            Some("https://"@ + q)
        }
    } else {
        Some("https://www.google.com/search?q="@ + replaced_text(q, " "@, "+"@))
    }
}

/// The address that a query opens in the browser, if the query holds anything:
/// the query itself where it looks like an address, else a search for it.
pub fn open_web_search(query: &str) -> (r: Option<String>)
    ensures
        r is Some <==> opened(query@) is Some,
        r is Some ==> r->0@ == opened(query@)->0,
{
    let q = str_trim(query);
    if q.as_str().is_empty() {
        return None;
    }
    let mut out = String::new();
    if looks_like_url(q.as_str()) {
        if str_starts(q.as_str(), "http://") || str_starts(q.as_str(), "https://") {
            return Some(q);
        }
        out.push_str("https://");
        out.push_str(q.as_str());
        assert(out@ =~= "https://"@ + q@);
    } else {
        proof {
            reveal_strlit(" ");
        }
        let plus = str_replace(q.as_str(), " ", "+");
        out.push_str("https://www.google.com/search?q=");
        out.push_str(plus.as_str());
        assert(out@ =~= "https://www.google.com/search?q="@ + plus@);
    }
    Some(out)
}

/// A text without the `@` at its beginning.
pub open spec fn without_at(s: Seq<char>) -> Seq<char>
    decreases s.len(),
{
    if s.len() > 0 && s[0] == '@' {
        without_at(s.drop_first())
    } else {
        s
    }
}

/// What a typed web query asks for: the text without the `@` in front.
pub fn web_search(query: &str) -> (r: String)
    ensures
        r@ == trimmed(without_at(trimmed(query@))),
{
    let t = str_trim(query);
    let s = chars_of(t.as_str());
    let mut i: usize = 0;
    assert(s@.skip(0) =~= s@);
    while i < s.len() && s[i] == '@'
        invariant
            i <= s.len(),
            without_at(s@.skip(i as int)) == without_at(s@),
        decreases s.len() - i,
    {
        assert(s@.skip(i as int)[0] == s@[i as int]);
        assert(s@.skip(i as int).drop_first() =~= s@.skip(i + 1));
        i = i + 1;
    }
    proof {
        if i < s.len() {
            assert(s@.skip(i as int)[0] == s@[i as int]);
        }
    }
    let rest = string_of(&s.as_slice()[i..s.len()]);
    assert(rest@ =~= s@.skip(i as int));
    str_trim(rest.as_str())
}

/// The address of the feed of search results.
pub open spec fn feed_url(query: Seq<char>) -> Seq<char> {
    "https://www.bing.com/search?q="@ + url_encoded(encode_utf8(query)) + "&format=rss"@
}

/// The address of the instant answers.
pub open spec fn answer_url(query: Seq<char>) -> Seq<char> {
    "https://api.duckduckgo.com/?q="@ + url_encoded(encode_utf8(query))
        + "&format=json&no_html=1&skip_disambig=1"@
}

/// An address with the query in the middle.
pub(crate) fn address(before: &str, query: &str, after: &str) -> (r: String)
    ensures
        r@ == before@ + url_encoded(encode_utf8(query@)) + after@,
{
    let mut out = String::new();
    let q = urlencode(query);
    out.push_str(before);
    out.push_str(q.as_str());
    out.push_str(after);
    assert(out@ =~= before@ + q@ + after@);
    out
}

/// The character that an XML entity stands for.
pub open spec fn entity_char(ent: Seq<char>) -> Option<char> {
    if ent == "&amp;"@ {
        Some('&')
    } else if ent == "&lt;"@ {
        Some('<')
    } else if ent == "&gt;"@ {
        Some('>')
    } else if ent == "&quot;"@ {
        Some('"')
    } else if ent == "&apos;"@ {
        Some('\'')
    } else {
        None
    }
}

/// The character that an XML entity stands for.
fn entity(ent: &str) -> (r: Option<char>)
    ensures
        r == entity_char(ent@),
{
    if str_eq(ent, "&amp;") {
        Some('&')
    } else if str_eq(ent, "&lt;") {
        Some('<')
    } else if str_eq(ent, "&gt;") {
        Some('>')
    } else if str_eq(ent, "&quot;") {
        Some('"')
    } else if str_eq(ent, "&apos;") {
        Some('\'')
    } else {
        None
    }
}

/// A text from `i` on with the entities of XML unescaped. Unknown entities
/// stay, and so does what stands outside of entities.
pub open spec fn unescaped(s: Seq<char>, i: int) -> Seq<char>
    decreases s.len() - i,
{
    if i < 0 || i >= s.len() {
        Seq::empty()
    } else {
        let end = find_text(s, seq![';'], i + 1);
        if s[i] == '&' && end > i + 1 {
            proof {
                lemma_find_text(s, seq![';'], i + 1);
            }
            let ent = s.subrange(i, end + 1);
            let out = match entity_char(ent) {
                Some(c) => seq![c],
                None => ent,
            };
            out + unescaped(s, end + 1)
        } else {
            seq![s[i]] + unescaped(s, i + 1)
        }
    }
}

/// A text with the entities of XML unescaped.
pub fn unescape_xml(text: &str) -> (r: String)
    ensures
        r@ == unescaped(text@, 0),
{
    let s = chars_of(text);
    let semi: Vec<char> = vec![';'];
    assert(semi@ =~= seq![';']);
    let mut out = String::new();
    let mut i: usize = 0;
    assert(out@ + unescaped(s@, 0) =~= unescaped(s@, 0));
    while i < s.len()
        invariant
            i <= s@.len(),
            s@.len() == s.len(),
            semi@ == seq![';'],
            out@ + unescaped(s@, i as int) == unescaped(s@, 0),
        decreases s@.len() - i,
    {
        let ghost before = out@;
        let ghost more = unescaped(s@, i as int);
        let mut next: usize = i + 1;
        let mut handled = false;
        proof {
            lemma_find_text(s@, seq![';'], i + 1);
        }
        if s[i] == '&' {
            match find_chars(s.as_slice(), semi.as_slice(), i + 1) {
                Some(end) => {
                    if end > i + 1 {
                        let ent = string_of(&s.as_slice()[i..end + 1]);
                        match entity(ent.as_str()) {
                            Some(c) => {
                                out.push(c);
                                assert(before.push(c) =~= before + seq![c]);
                            },
                            None => {
                                out.push_str(ent.as_str());
                            },
                        }
                        next = end + 1;
                        handled = true;
                    }
                },
                None => {},
            }
        }
        if !handled {
            out.push(s[i]);
            assert(before.push(s@[i as int]) =~= before + seq![s@[i as int]]);
        }
        proof {
            let part = more.take(more.len() - unescaped(s@, next as int).len());
            assert(out@ + unescaped(s@, next as int) =~= before + more);
        }
        i = next;
    }
    assert(out@ + unescaped(s@, i as int) =~= out@);
    out
}

/// What stands between `<tag>` and `</tag>`, unescaped.
pub open spec fn field_of(item: Seq<char>, tag: Seq<char>) -> Option<Seq<char>> {
    let open = "<"@ + tag + ">"@;
    let close = "</"@ + tag + ">"@;
    let at = find_text(item, open, 0);
    let rest = item.skip(at + open.len());
    let end = find_text(rest, close, 0);
    if at < 0 || end < 0 {
        None
    } else {
        Some(unescaped(rest.take(end), 0))
    }
}

/// The field, or an empty text.
pub open spec fn field_or_empty(item: Seq<char>, tag: Seq<char>) -> Seq<char> {
    match field_of(item, tag) {
        Some(t) => t,
        None => Seq::empty(),
    }
}

/// What stands between `<tag>` and `</tag>`, unescaped, or an empty text.
fn field(item: &[char], tag: &str) -> (r: String)
    ensures
        r@ == field_or_empty(item@, tag@),
{
    let mut open = String::new();
    open.push_str("<");
    open.push_str(tag);
    open.push_str(">");
    assert(open@ =~= "<"@ + tag@ + ">"@);
    let mut close = String::new();
    close.push_str("</");
    close.push_str(tag);
    close.push_str(">");
    assert(close@ =~= "</"@ + tag@ + ">"@);
    let o = chars_of(open.as_str());
    let c = chars_of(close.as_str());
    match find_chars(item, o.as_slice(), 0) {
        None => String::new(),
        Some(at) => {
            assert(at + o.len() <= item.len());
            let rest = &item[at + o.len()..item.len()];
            assert(rest@ =~= item@.skip(at + o.len()));
            match find_chars(rest, c.as_slice(), 0) {
                None => String::new(),
                Some(end) => {
                    let inner = string_of(&rest[0..end]);
                    assert(inner@ =~= rest@.take(end as int));
                    unescape_xml(inner.as_str())
                },
            }
        },
    }
}

/// A text without its tags: each tag becomes a space. `inside` says whether the
/// text begins inside of one.
pub open spec fn without_tags(s: Seq<char>, inside: bool) -> Seq<char>
    decreases s.len(),
{
    if s.len() == 0 {
        Seq::empty()
    } else if s[0] == '<' {
        without_tags(s.drop_first(), true)
    } else if s[0] == '>' {
        seq![' '] + without_tags(s.drop_first(), false)
    } else if inside {
        without_tags(s.drop_first(), true)
    } else {
        seq![s[0]] + without_tags(s.drop_first(), false)
    }
}

/// A text with each run of spaces made one; `prev` stands before it.
pub open spec fn single_spaced(s: Seq<char>, prev: char) -> Seq<char>
    decreases s.len(),
{
    if s.len() == 0 {
        Seq::empty()
    } else if s[0] == ' ' && prev == ' ' {
        single_spaced(s.drop_first(), prev)
    } else {
        seq![s[0]] + single_spaced(s.drop_first(), s[0])
    }
}

/// The plain text of a description: no tags, single spaces, at most 200 bytes.
pub open spec fn plain_text(s: Seq<char>) -> Seq<char> {
    trimmed(shortened(single_spaced(without_tags(s, false), ' '), 200))
}

/// The plain text of a description. Where the cut would split a character, it
/// falls before that character.
pub fn strip_html(text: &str) -> (r: String)
    ensures
        r@ == plain_text(text@),
{
    let s = chars_of(text);
    let mut raw: Vec<char> = Vec::new();
    let mut inside = false;
    let mut i: usize = 0;
    let ghost bare = without_tags(s@, false);
    assert(s@.skip(0) =~= s@);
    assert(raw@ + bare =~= bare);
    while i < s.len()
        invariant
            i <= s.len(),
            raw@ + without_tags(s@.skip(i as int), inside) == bare,
        decreases s.len() - i,
    {
        let c = s[i];
        let ghost rest = s@.skip(i as int);
        let ghost before = raw@;
        assert(rest[0] == c);
        assert(rest.drop_first() =~= s@.skip(i + 1));
        if c == '<' {
            inside = true;
        } else if c == '>' {
            inside = false;
            raw.push(' ');
            assert(raw@ + without_tags(s@.skip(i + 1), false) =~= before + without_tags(
                rest,
                inside,
            )) by {
                assert(before.push(' ') =~= before + seq![' ']);
                let t = without_tags(s@.skip(i + 1), false);
                assert((before + seq![' ']) + t =~= before + (seq![' '] + t));
            }
        } else if !inside {
            raw.push(c);
            assert(before.push(c) =~= before + seq![c]);
            let ghost t = without_tags(s@.skip(i + 1), false);
            assert((before + seq![c]) + t =~= before + (seq![c] + t));
        }
        i = i + 1;
    }
    assert(raw@ + without_tags(s@.skip(i as int), inside) =~= raw@);
    let mut out: Vec<char> = Vec::new();
    let mut prev = ' ';
    let mut k: usize = 0;
    let ghost single = single_spaced(raw@, ' ');
    assert(raw@.skip(0) =~= raw@);
    assert(out@ + single =~= single);
    while k < raw.len()
        invariant
            k <= raw.len(),
            out@ + single_spaced(raw@.skip(k as int), prev) == single,
        decreases raw.len() - k,
    {
        let c = raw[k];
        let ghost rest = raw@.skip(k as int);
        let ghost before = out@;
        assert(rest[0] == c);
        assert(rest.drop_first() =~= raw@.skip(k + 1));
        if !(c == ' ' && prev == ' ') {
            prev = c;
            out.push(c);
            assert(before.push(c) =~= before + seq![c]);
            let ghost t = single_spaced(raw@.skip(k + 1), c);
            assert((before + seq![c]) + t =~= before + (seq![c] + t));
        }
        k = k + 1;
    }
    assert(out@ + single_spaced(raw@.skip(k as int), prev) =~= out@);
    let short = str_shorten(string_of(out.as_slice()).as_str(), 200);
    str_trim(short.as_str())
}

/// Where the first item of a feed begins and ends, and where the rest begins.
pub open spec fn item_bounds(s: Seq<char>) -> Option<(int, int)> {
    let start = find_text(s, "<item>"@, 0);
    let from = start + "<item>"@.len();
    let end = find_text(s, "</item>"@, from);
    if start < 0 {
        None
    } else if end < 0 {
        Some((from, s.len() as int))
    } else {
        Some((from, end))
    }
}

/// The hit of an item, if it has a title and an address.
pub open spec fn item_hit(item: Seq<char>) -> Option<Hit> {
    let title = trimmed(field_or_empty(item, "title"@));
    let link = trimmed(field_or_empty(item, "link"@));
    if title.len() == 0 || link.len() == 0 {
        None
    } else {
        Some((title, link, plain_text(field_or_empty(item, "description"@))))
    }
}

/// The hits of a feed, at most `left` of them.
pub open spec fn feed_hits(s: Seq<char>, left: int) -> Seq<Hit>
    decreases s.len(),
{
    match item_bounds(s) {
        None => Seq::empty(),
        Some((from, end)) => {
            proof {
                lemma_item_bounds(s);
            }
            match item_hit(s.subrange(from, end)) {
                None => feed_hits(s.skip(end), left),
                Some(h) => {
                    if left <= 1 {
                        seq![h]
                    } else {
                        seq![h] + feed_hits(s.skip(end), left - 1)
                    }
                },
            }
        },
    }
}

/// An item lies inside of its feed, behind its opening tag.
pub proof fn lemma_item_bounds(s: Seq<char>)
    ensures
        item_bounds(s) is Some ==> 0 < (item_bounds(s)->0).0 <= (item_bounds(s)->0).1 <= s.len(),
{
    reveal_strlit("<item>");
    lemma_find_text(s, "<item>"@, 0);
    let start = find_text(s, "<item>"@, 0);
    if start >= 0 {
        lemma_find_text(s, "</item>"@, start + 6);
    }
}

/// The first five hits of a feed of search results.
pub fn parse_bing_rss(body: &str) -> (r: Vec<WebResult>)
    ensures
        hits(r@) == feed_hits(body@, 5),
{
    let s = chars_of(body);
    let open = chars_of("<item>");
    let close = chars_of("</item>");
    let mut out: Vec<WebResult> = Vec::new();
    let mut base: usize = 0;
    let mut done = false;
    let ghost all = feed_hits(s@, 5);
    assert(s@.skip(0) =~= s@);
    assert(hits(out@) + all =~= all);
    while !done
        invariant
            base <= s@.len(),
            s@.len() == s.len(),
            s@ == body@,
            open@ == "<item>"@,
            close@ == "</item>"@,
            !done ==> out.len() < 5,
            !done ==> hits(out@) + feed_hits(s@.skip(base as int), 5 - out.len()) == all,
            done ==> hits(out@) == all,
        decreases s@.len() - base + (if done { 0int } else { 1int }),
    {
        let ghost before = out@;
        let rest = &s.as_slice()[base..s.len()];
        assert(rest@ =~= s@.skip(base as int));
        proof {
            reveal_strlit("<item>");
            lemma_item_bounds(rest@);
            lemma_find_text(rest@, "<item>"@, 0);
        }
        match find_chars(rest, open.as_slice(), 0) {
            None => {
                assert(feed_hits(rest@, 5 - out.len()) =~= Seq::<Hit>::empty());
                assert(hits(out@) =~= all);
                done = true;
            },
            Some(start) => {
                let from = start + open.len();
                let end = match find_chars(rest, close.as_slice(), from) {
                    Some(e) => e,
                    None => rest.len(),
                };
                assert(item_bounds(rest@) == Some((from as int, end as int)));
                let item = &rest[from..end];
                let title_field = field(item, "title");
                let link_field = field(item, "link");
                let title = str_trim(title_field.as_str());
                let link = str_trim(link_field.as_str());
                if title.as_str().is_empty() || link.as_str().is_empty() {
                    assert(item_hit(item@) is None);
                } else {
                    let description = field(item, "description");
                    let snippet = strip_html(description.as_str());
                    let ghost h: Hit = (title@, link@, snippet@);
                    assert(item_hit(item@) == Some(h));
                    out.push(WebResult { title, url: link, snippet });
                    proof {
                        assert(hits(out@) =~= hits(before).push(h));
                        assert(hits(before).push(h) =~= hits(before) + seq![h]);
                        let t = feed_hits(rest@.skip(end as int), 5 - out.len());
                        assert((hits(before) + seq![h]) + t =~= hits(before) + (seq![h] + t));
                    }
                    if out.len() >= 5 {
                        done = true;
                    }
                }
                assert(rest@.skip(end as int) =~= s@.skip(base + end));
                base = base + end;
            },
        }
    }
    out
}

/// How many bytes of an answer are read at most before the reading stops.
pub const MAX_BODY: usize = 2_000_000;

/// Takes the next bytes of an answer. Says whether the reading goes on: not
/// after an empty piece, and not once the answer is too long.
pub fn http_get(body: &mut Vec<u8>, piece: &Vec<u8>) -> (more: bool)
    requires
        old(body).len() <= MAX_BODY,
        old(body).len() + piece.len() <= usize::MAX,
    ensures
        final(body)@ == old(body)@ + piece@,
        more == (piece.len() > 0 && old(body).len() + piece.len() <= MAX_BODY),
        more <==> piece.len() > 0 && final(body).len() <= 2_000_000,
{
    if piece.len() == 0 {
        assert(body@ =~= old(body)@ + piece@);
        return false;
    }
    let mut copy = vstd::slice::slice_to_vec(piece.as_slice());
    body.append(&mut copy);
    body.len() <= MAX_BODY
}

} // verus!
