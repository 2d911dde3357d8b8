//! What holds of addresses, feeds and answers of the web.
use crate::answers::{answer_hits, with_group, with_lead, with_topics, Lead};
use crate::data_uri::{colon_in_name, picture_type};
use crate::text::{
    ascii_lower, find_text, has_text, lemma_find_text, lowercase, parts, replaced_text, shortened,
    text_at, text_starts, text_width, trimmed,
};
use crate::text_laws::{law_separator_parts_a_text, law_shortened_text_fits};
use crate::web::{
    entity_char, feed_hits, field_of, item_bounds, item_hit, lemma_item_bounds, opened,
    plain_text, single_spaced, unescaped, url_encoded, without_tags, Hit,
};
use vstd::prelude::*;

verus! {

/// A letter, a digit, a hyphen, an underscore, a dot and a tilde stand for
/// themselves in an address. Any other byte is a `%` and two hexadecimal digits,
/// the high one first. Bytes behind one another stand behind one another.
pub proof fn law_bytes_in_an_address(a: Seq<u8>, c: u8)
    ensures
        ({
            let one = url_encoded(seq![c]);
            let plain = 0x30 <= c <= 0x39 || 0x41 <= c <= 0x5a || 0x61 <= c <= 0x7a || c == 0x2d
                || c == 0x5f || c == 0x2e || c == 0x7e;
            &&& url_encoded(a.push(c)) == url_encoded(a) + one
            &&& plain ==> one == seq![c as char]
            &&& !plain ==> one.len() == 3 && one[0] == '%' && one[1] as int == hex_code(
                c as int / 16,
            ) && one[2] as int == hex_code(c as int % 16)
        }),
{
    reveal_with_fuel(url_encoded, 2);
    assert(seq![c].drop_last() =~= Seq::empty());
    assert(a.push(c).drop_last() =~= a);
    let one = url_encoded(seq![c]);
    assert(url_encoded(a.push(c)) =~= url_encoded(a) + one);
    assert(0x2du8 as char == '-' && 0x5fu8 as char == '_' && 0x2eu8 as char == '.' && 0x7eu8 as char
        == '~');
    assert(c as char == '-' <==> c == 0x2d);
    assert(c as char == '_' <==> c == 0x5f);
    assert(c as char == '.' <==> c == 0x2e);
    assert(c as char == '~' <==> c == 0x7e);
}

/// The code of an uppercase hexadecimal digit.
pub open spec fn hex_code(n: int) -> int {
    if n < 10 {
        0x30 + n
    } else {
        0x41 + n - 10
    }
}

/// What the browser opens: a query with a scheme as it is, one that looks like an
/// address with a scheme before it, and a search for any other.
pub proof fn law_what_the_browser_opens(query: Seq<char>)
    ensures
        ({
            let q = trimmed(query);
            let low = lowercase(q);
            let schemed = text_starts(q, "http://"@) || text_starts(q, "https://"@);
            let address = text_starts(low, "http://"@) || text_starts(low, "https://"@) || has_text(
                low,
                ".com"@,
            ) || has_text(low, ".net"@) || has_text(low, ".org"@);
            &&& q.len() == 0 <==> opened(query) is None
            &&& q.len() > 0 && address && schemed ==> opened(query) == Some(q)
            &&& q.len() > 0 && address && !schemed ==> opened(query) == Some("https://"@ + q)
            &&& q.len() > 0 && !address ==> opened(query) == Some(
                "https://www.google.com/search?q="@ + replaced_text(q, " "@, "+"@),
            )
        }),
{
}

/// A text with the characters that XML keeps for itself escaped.
pub open spec fn escaped(s: Seq<char>) -> Seq<char>
    decreases s.len(),
{
    if s.len() == 0 {
        Seq::empty()
    } else {
        (if s[0] == '&' {
            "&amp;"@
        } else if s[0] == '<' {
            "&lt;"@
        } else if s[0] == '>' {
            "&gt;"@
        } else if s[0] == '"' {
            "&quot;"@
        } else if s[0] == '\'' {
            "&apos;"@
        } else {
            seq![s[0]]
        }) + escaped(s.drop_first())
    }
}

/// An escaped text is read back as the text.
pub proof fn law_escaped_text_is_read_back(s: Seq<char>)
    ensures
        unescaped(escaped(s), 0) == s,
    decreases s.len(),
{
    if s.len() > 0 {
        let rest = escaped(s.drop_first());
        let whole = escaped(s);
        law_escaped_text_is_read_back(s.drop_first());
        reveal_strlit("&amp;");
        reveal_strlit("&lt;");
        reveal_strlit("&gt;");
        reveal_strlit("&quot;");
        reveal_strlit("&apos;");
        if s[0] == '&' {
            lemma_entity("&amp;"@, rest);
        } else if s[0] == '<' {
            assert("&lt;"@[3] != "&amp;"@[3]);
            lemma_entity("&lt;"@, rest);
        } else if s[0] == '>' {
            assert("&gt;"@[1] != "&amp;"@[1]);
            assert("&gt;"@[1] != "&lt;"@[1]);
            lemma_entity("&gt;"@, rest);
        } else if s[0] == '"' {
            assert("&quot;"@.len() != "&amp;"@.len());
            assert("&quot;"@.len() != "&lt;"@.len());
            assert("&quot;"@.len() != "&gt;"@.len());
            lemma_entity("&quot;"@, rest);
        } else if s[0] == '\'' {
            assert("&apos;"@.len() != "&amp;"@.len());
            assert("&apos;"@.len() != "&lt;"@.len());
            assert("&apos;"@.len() != "&gt;"@.len());
            assert("&apos;"@[1] != "&quot;"@[1]);
            lemma_entity("&apos;"@, rest);
        } else {
            assert(whole.skip(1) =~= rest);
            lemma_unescaped_shift(whole, rest, 1);
            assert(whole[0] == s[0]);
        }
        assert(s =~= seq![s[0]] + s.drop_first());
    }
}

proof fn lemma_entity(ent: Seq<char>, rest: Seq<char>)
    requires
        ent.len() >= 3,
        ent[0] == '&',
        ent.last() == ';',
        forall|k: int| 0 <= k < ent.len() - 1 ==> #[trigger] ent[k] != ';',
        entity_char(ent) is Some,
    ensures
        unescaped(ent + rest, 0) == seq![entity_char(ent)->0] + unescaped(rest, 0),
{
    let s = ent + rest;
    let end: int = ent.len() - 1;
    lemma_find_at(s, ';', 1, end);
    assert(s.subrange(0, end + 1) =~= ent);
    assert(s.skip(ent.len() as int) =~= rest);
    lemma_unescaped_shift(s, rest, ent.len() as int);
}

proof fn lemma_find_at(s: Seq<char>, c: char, from: int, at: int)
    requires
        0 <= from <= at < s.len(),
        s[at] == c,
        forall|k: int| from <= k < at ==> #[trigger] s[k] != c,
    ensures
        find_text(s, seq![c], from) == at,
    decreases at - from,
{
    if from < at {
        assert(s[from] != c);
        assert(s.subrange(from, from + 1)[0] == s[from]);
        lemma_find_at(s, c, from + 1, at);
    } else {
        assert(s.subrange(at, at + 1) =~= seq![c]);
    }
}

/// Unescaping from a place on is unescaping what stands there.
proof fn lemma_unescaped_shift(s: Seq<char>, rest: Seq<char>, n: int)
    requires
        0 <= n <= s.len(),
        rest == s.skip(n),
    ensures
        unescaped(s, n) == unescaped(rest, 0),
{
    lemma_unescaped_at(s, rest, n, 0);
}

proof fn lemma_unescaped_at(s: Seq<char>, rest: Seq<char>, n: int, i: int)
    requires
        0 <= n <= s.len(),
        rest == s.skip(n),
        0 <= i,
    ensures
        unescaped(s, n + i) == unescaped(rest, i),
    decreases rest.len() - i,
{
    if i < rest.len() {
        let q = seq![';'];
        lemma_find_text(rest, q, i + 1);
        lemma_find_text(s, q, n + i + 1);
        lemma_find_shifted(s, rest, n, i + 1);
        let end = find_text(rest, q, i + 1);
        assert(s[n + i] == rest[i]);
        if rest[i] == '&' && end > i + 1 {
            assert(s.subrange(n + i, n + end + 1) =~= rest.subrange(i, end + 1));
            lemma_unescaped_at(s, rest, n, end + 1);
        } else {
            lemma_unescaped_at(s, rest, n, i + 1);
        }
    }
}

proof fn lemma_find_shifted(s: Seq<char>, rest: Seq<char>, n: int, i: int)
    requires
        0 <= n <= s.len(),
        rest == s.skip(n),
        0 <= i,
    ensures
        find_text(rest, seq![';'], i) >= 0 <==> find_text(s, seq![';'], n + i) >= 0,
        find_text(rest, seq![';'], i) >= 0 ==> find_text(s, seq![';'], n + i) == n + find_text(
            rest,
            seq![';'],
            i,
        ),
    decreases rest.len() + 1 - i,
{
    let q = seq![';'];
    if i + 1 <= rest.len() {
        assert(s.subrange(n + i, n + i + 1) =~= rest.subrange(i, i + 1));
        lemma_find_shifted(s, rest, n, i + 1);
    }
}

/// A tag makes place for a space, and what stands outside of tags stays.
pub proof fn law_tags_go(a: Seq<char>, tag: Seq<char>, b: Seq<char>)
    requires
        forall|k: int| 0 <= k < a.len() ==> #[trigger] a[k] != '<' && a[k] != '>',
        forall|k: int| 0 <= k < tag.len() ==> #[trigger] tag[k] != '<' && tag[k] != '>',
    ensures
        without_tags(a, false) == a,
        without_tags(a + seq!['<'] + tag + seq!['>'] + b, false) == a + seq![' '] + without_tags(
            b,
            false,
        ),
    decreases a.len(),
{
    let s = a + seq!['<'] + tag + seq!['>'] + b;
    if a.len() == 0 {
        assert(s.drop_first() =~= tag + seq!['>'] + b);
        lemma_inside(tag, b);
        assert(a + seq![' '] + without_tags(b, false) =~= seq![' '] + without_tags(b, false));
    } else {
        let rest = a.drop_first();
        assert(a[0] != '<' && a[0] != '>');
        assert forall|k: int| 0 <= k < rest.len() implies #[trigger] rest[k] != '<' && rest[k]
            != '>' by {
            assert(rest[k] == a[k + 1]);
        }
        law_tags_go(rest, tag, b);
        assert(s.drop_first() =~= rest + seq!['<'] + tag + seq!['>'] + b);
        assert(a =~= seq![a[0]] + rest);
        assert(without_tags(s, false) =~= a + seq![' '] + without_tags(b, false));
    }
}

proof fn lemma_inside(tag: Seq<char>, b: Seq<char>)
    requires
        forall|k: int| 0 <= k < tag.len() ==> #[trigger] tag[k] != '<' && tag[k] != '>',
    ensures
        without_tags(tag + seq!['>'] + b, true) == seq![' '] + without_tags(b, false),
    decreases tag.len(),
{
    let s = tag + seq!['>'] + b;
    if tag.len() == 0 {
        assert(s.drop_first() =~= b);
    } else {
        let rest = tag.drop_first();
        assert(tag[0] != '<' && tag[0] != '>');
        assert forall|k: int| 0 <= k < rest.len() implies #[trigger] rest[k] != '<' && rest[k]
            != '>' by {
            assert(rest[k] == tag[k + 1]);
        }
        lemma_inside(rest, b);
        assert(s.drop_first() =~= rest + seq!['>'] + b);
    }
}

/// No two spaces stand behind one another, and what is no space stays.
pub proof fn law_runs_of_spaces_are_one(s: Seq<char>, prev: char)
    ensures
        forall|k: int|
            0 <= k < single_spaced(s, prev).len() - 1 && #[trigger] single_spaced(s, prev)[k] == ' '
                ==> single_spaced(s, prev)[k + 1] != ' ',
        prev == ' ' && single_spaced(s, prev).len() > 0 ==> single_spaced(s, prev)[0] != ' ',
        (forall|k: int| 0 <= k < s.len() ==> #[trigger] s[k] != ' ') ==> single_spaced(s, prev)
            == s,
    decreases s.len(),
{
    if s.len() > 0 {
        let rest = s.drop_first();
        let out = single_spaced(s, prev);
        if s[0] == ' ' && prev == ' ' {
            law_runs_of_spaces_are_one(rest, prev);
        } else {
            law_runs_of_spaces_are_one(rest, s[0]);
            let more = single_spaced(rest, s[0]);
            assert forall|k: int| 0 <= k < out.len() - 1 && #[trigger] out[k] == ' ' implies out[k
                + 1] != ' ' by {
                if k > 0 {
                    assert(out[k] == more[k - 1]);
                    assert(out[k + 1] == more[k]);
                } else {
                    assert(out[1] == more[0]);
                }
            }
        }
        if forall|k: int| 0 <= k < s.len() ==> #[trigger] s[k] != ' ' {
            assert(s[0] != ' ');
            assert forall|k: int| 0 <= k < rest.len() implies #[trigger] rest[k] != ' ' by {
                assert(rest[k] == s[k + 1]);
            }
            assert(single_spaced(s, prev) =~= s);
        }
    }
}

/// A field of an item is the text between its tags, unescaped: from the first
/// opening tag to the first closing one behind it.
pub proof fn law_field_stands_between_its_tags(
    a: Seq<char>,
    tag: Seq<char>,
    text: Seq<char>,
    b: Seq<char>,
)
    requires
        ({
            let open = "<"@ + tag + ">"@;
            let close = "</"@ + tag + ">"@;
            let rest = text + close + b;
            &&& forall|k: int| 0 <= k < a.len() ==> !text_at(a + open + rest, open, k)
            &&& forall|k: int| 0 <= k < text.len() ==> !text_at(rest, close, k)
        }),
    ensures
        field_of(a + ("<"@ + tag + ">"@) + (text + ("</"@ + tag + ">"@) + b), tag) == Some(
            unescaped(text, 0),
        ),
{
    let open = "<"@ + tag + ">"@;
    let close = "</"@ + tag + ">"@;
    let rest = text + close + b;
    let item = a + open + rest;
    let n: int = a.len() as int;
    let m: int = text.len() as int;
    assert(item.subrange(n, n + open.len()) =~= open);
    lemma_find_text(item, open, 0);
    assert(text_at(item, open, n));
    assert(find_text(item, open, 0) == n);
    assert(item.skip(n + open.len()) =~= rest);
    assert(rest.subrange(m, m + close.len()) =~= close);
    lemma_find_text(rest, close, 0);
    assert(text_at(rest, close, m));
    assert(find_text(rest, close, 0) == m);
    assert(rest.take(m) =~= text);
}

/// A feed gives as many hits as are asked for at most, each from an item with a
/// title and an address.
pub proof fn law_feed_gives_few_hits(s: Seq<char>, left: int)
    requires
        left >= 1,
    ensures
        feed_hits(s, left).len() <= left,
        forall|k: int|
            0 <= k < feed_hits(s, left).len() ==> (#[trigger] feed_hits(s, left)[k]).0.len() > 0
                && feed_hits(s, left)[k].1.len() > 0,
    decreases s.len(),
{
    match item_bounds(s) {
        None => {},
        Some((from, end)) => {
            lemma_item_bounds(s);
            match item_hit(s.subrange(from, end)) {
                None => {
                    law_feed_gives_few_hits(s.skip(end), left);
                },
                Some(h) => {
                    if left > 1 {
                        let more = feed_hits(s.skip(end), left - 1);
                        law_feed_gives_few_hits(s.skip(end), left - 1);
                        assert forall|k: int| 0 <= k < feed_hits(s, left).len() implies (
                        #[trigger] feed_hits(s, left)[k]).0.len() > 0 && feed_hits(
                            s,
                            left,
                        )[k].1.len() > 0 by {
                            if k > 0 {
                                assert(feed_hits(s, left)[k] == more[k - 1]);
                            }
                        }
                    }
                },
            }
        },
    }
}

/// The first item of a feed is read first: what stands between its tags gives the
/// first hit where it has a title and an address, and the rest of the feed gives
/// the others.
pub proof fn law_items_are_read_in_order(
    a: Seq<char>,
    item: Seq<char>,
    b: Seq<char>,
    left: int,
)
    requires
        ({
            let rest = item + "</item>"@ + b;
            let s = a + "<item>"@ + rest;
            &&& forall|k: int| 0 <= k < a.len() ==> !text_at(s, "<item>"@, k)
            &&& forall|k: int|
                a.len() + 6 <= k < a.len() + 6 + item.len() ==> !text_at(s, "</item>"@, k)
        }),
        left > 1,
    ensures
        ({
            let s = a + "<item>"@ + (item + "</item>"@ + b);
            feed_hits(s, left) == match item_hit(item) {
                Some(h) => seq![h] + feed_hits("</item>"@ + b, left - 1),
                None => feed_hits("</item>"@ + b, left),
            }
        }),
{
    reveal_strlit("<item>");
    reveal_strlit("</item>");
    let s = a + "<item>"@ + (item + "</item>"@ + b);
    let n: int = a.len() as int;
    let from: int = n + 6;
    let end: int = from + item.len();
    assert(s.subrange(n, n + 6) =~= "<item>"@);
    lemma_find_text(s, "<item>"@, 0);
    assert(text_at(s, "<item>"@, n));
    assert(find_text(s, "<item>"@, 0) == n);
    assert(s.subrange(end, end + 7) =~= "</item>"@);
    lemma_find_text(s, "</item>"@, from);
    assert(text_at(s, "</item>"@, end));
    assert(find_text(s, "</item>"@, from) == end);
    assert(s.subrange(from, end) =~= item);
    assert(s.skip(end) =~= "</item>"@ + b);
}

/// A lead that gives a hit: it has a text and an address.
pub open spec fn is_hit_of(h: Hit, lead: Lead) -> bool {
    &&& lead.0 is Some && trimmed(lead.0->0).len() > 0
    &&& lead.1 is Some && trimmed(lead.1->0).len() > 0
    &&& h.0 == shortened(trimmed(lead.0->0), 110)
    &&& h.1 == trimmed(lead.1->0)
    &&& h.2.len() == 0
}

/// The summary of an answer gives the first hit, where it has a text and an
/// address; and no answer gives more than eight.
pub proof fn law_summary_comes_first(a: (Lead, Seq<(Option<Seq<Lead>>, Lead)>))
    ensures
        answer_hits(a).len() <= 8,
        (a.0).0 is Some && trimmed((a.0).0->0).len() > 0 && (a.0).1 is Some && trimmed(
            (a.0).1->0,
        ).len() > 0 ==> answer_hits(a).len() > 0 && is_hit_of(answer_hits(a)[0], a.0),
{
    let first = with_lead(Seq::empty(), a.0);
    lemma_topics(first, a.1, 0);
    if first.len() > 0 {
        assert(answer_hits(a).take(first.len() as int)[0] == first[0]);
    }
}

proof fn lemma_group(out: Seq<Hit>, subs: Seq<Lead>, i: int)
    requires
        out.len() <= 8,
    ensures
        with_group(out, subs, i).len() <= 8,
        out.is_prefix_of(with_group(out, subs, i)),
    decreases subs.len() - i,
{
    if !(i < 0 || i >= subs.len() || out.len() >= 8) {
        let next = with_lead(out, subs[i]);
        lemma_group(next, subs, i + 1);
        assert(out =~= next.take(out.len() as int));
        assert(out =~= with_group(out, subs, i).take(out.len() as int));
    }
}

proof fn lemma_topics(out: Seq<Hit>, topics: Seq<(Option<Seq<Lead>>, Lead)>, i: int)
    requires
        out.len() <= 8,
    ensures
        with_topics(out, topics, i).len() <= 8,
        out.is_prefix_of(with_topics(out, topics, i)),
    decreases topics.len() - i,
{
    if !(i < 0 || i >= topics.len() || out.len() >= 8) {
        let next = match topics[i].0 {
            Some(group) => with_group(out, group, 0),
            None => with_lead(out, topics[i].1),
        };
        match topics[i].0 {
            Some(group) => {
                lemma_group(out, group, 0);
            },
            None => {},
        }
        assert(out.is_prefix_of(next)) by {
            assert(out =~= next.take(out.len() as int));
        }
        lemma_topics(next, topics, i + 1);
        assert(out =~= with_topics(out, topics, i).take(out.len() as int));
    }
}

/// The topics of an answer follow in their order: one that has a group gives the
/// hits of the group, any other its own, as long as there are fewer than eight.
pub proof fn law_topics_follow_in_order(
    out: Seq<Hit>,
    topic: (Option<Seq<Lead>>, Lead),
    lead: Lead,
    rest: Seq<Lead>,
    more: Seq<(Option<Seq<Lead>>, Lead)>,
)
    requires
        out.len() < 8,
    ensures
        topic.0 is None ==> with_topics(out, seq![topic] + more, 0) == with_topics(
            with_lead(out, topic.1),
            more,
            0,
        ),
        topic.0 is Some ==> with_topics(out, seq![topic] + more, 0) == with_topics(
            with_group(out, topic.0->0, 0),
            more,
            0,
        ),
        with_group(out, seq![lead] + rest, 0) == with_group(with_lead(out, lead), rest, 0),
        with_lead(out, lead).len() > out.len() ==> is_hit_of(with_lead(out, lead).last(), lead),
        with_lead(out, lead).len() == out.len() || with_lead(out, lead).len() == out.len() + 1,
        with_lead(out, lead).len() == out.len() ==> with_lead(out, lead) == out,
{
    let all = seq![topic] + more;
    let next = match topic.0 {
        Some(group) => with_group(out, group, 0),
        None => with_lead(out, topic.1),
    };
    lemma_topics_shift(next, all, more, 0);
    let leads = seq![lead] + rest;
    lemma_group_shift(with_lead(out, lead), leads, rest, 0);
}

proof fn lemma_topics_shift(
    out: Seq<Hit>,
    all: Seq<(Option<Seq<Lead>>, Lead)>,
    rest: Seq<(Option<Seq<Lead>>, Lead)>,
    i: int,
)
    requires
        all.len() == rest.len() + 1,
        forall|k: int| 0 <= k < rest.len() ==> #[trigger] rest[k] == all[k + 1],
        0 <= i,
    ensures
        with_topics(out, all, i + 1) == with_topics(out, rest, i),
    decreases rest.len() - i,
{
    if i < rest.len() && out.len() < 8 {
        assert(rest[i] == all[i + 1]);
        let next = match rest[i].0 {
            Some(group) => with_group(out, group, 0),
            None => with_lead(out, rest[i].1),
        };
        lemma_topics_shift(next, all, rest, i + 1);
    }
}

proof fn lemma_group_shift(out: Seq<Hit>, all: Seq<Lead>, rest: Seq<Lead>, i: int)
    requires
        all.len() == rest.len() + 1,
        forall|k: int| 0 <= k < rest.len() ==> #[trigger] rest[k] == all[k + 1],
        0 <= i,
    ensures
        with_group(out, all, i + 1) == with_group(out, rest, i),
    decreases rest.len() - i,
{
    if i < rest.len() && out.len() < 8 {
        assert(rest[i] == all[i + 1]);
        lemma_group_shift(with_lead(out, rest[i]), all, rest, i + 1);
    }
}

/// The type of a picture follows from what stands behind the last dot of its
/// path, but for case; a colon in the last component makes it none.
pub proof fn law_type_of_a_picture(a: Seq<char>, ext: Seq<char>)
    requires
        forall|k: int|
            0 <= k < ext.len() ==> #[trigger] ext[k] != '.' && ext[k] != ':' && ext[k] != '\\'
                && ext[k] != '/',
    ensures
        ({
            let path = a.push('.') + ext;
            let low = ascii_lower(ext);
            let kind = picture_type(path);
            &&& colon_in_name(a) ==> kind is None
            &&& !colon_in_name(a) ==> {
                &&& low == "png"@ ==> kind == Some("image/png"@)
                &&& low == "jpg"@ || low == "jpeg"@ ==> kind == Some("image/jpeg"@)
                &&& low == "gif"@ ==> kind == Some("image/gif"@)
                &&& low == "webp"@ ==> kind == Some("image/webp"@)
                &&& low == "bmp"@ ==> kind == Some("image/bmp"@)
                &&& low == "ico"@ ==> kind == Some("image/x-icon"@)
                &&& kind is Some ==> low == "png"@ || low == "jpg"@ || low == "jpeg"@ || low
                    == "gif"@ || low == "webp"@ || low == "bmp"@ || low == "ico"@
            }
        }),
{
    reveal_strlit("png");
    reveal_strlit("jpg");
    reveal_strlit("jpeg");
    reveal_strlit("gif");
    reveal_strlit("webp");
    reveal_strlit("bmp");
    reveal_strlit("ico");
    assert("png"@[0] == 'p' && "jpg"@[0] == 'j' && "jpeg"@[0] == 'j' && "gif"@[0] == 'g');
    assert("webp"@[0] == 'w' && "bmp"@[0] == 'b' && "ico"@[0] == 'i');
    lemma_last_part(a, ext);
    lemma_colon(a.push('.'), ext);
    assert(a.push('.').drop_last() =~= a);
}

proof fn lemma_colon(a: Seq<char>, ext: Seq<char>)
    requires
        forall|k: int|
            0 <= k < ext.len() ==> #[trigger] ext[k] != ':' && ext[k] != '\\' && ext[k] != '/',
    ensures
        colon_in_name(a + ext) == colon_in_name(a),
    decreases ext.len(),
{
    if ext.len() == 0 {
        assert(a + ext =~= a);
    } else {
        let rest = ext.drop_last();
        assert((a + ext).drop_last() =~= a + rest);
        assert((a + ext).last() == ext[ext.len() - 1]);
        lemma_colon(a, rest);
    }
}

proof fn lemma_last_part(a: Seq<char>, ext: Seq<char>)
    requires
        forall|k: int| 0 <= k < ext.len() ==> #[trigger] ext[k] != '.',
    ensures
        parts(a.push('.') + ext, '.').last() == ext,
    decreases a.len(),
{
    let s = a.push('.') + ext;
    law_separator_parts_a_text(ext, '.', ext);
    if forall|k: int| 0 <= k < a.len() ==> #[trigger] a[k] != '.' {
        law_separator_parts_a_text(a, '.', ext);
    } else {
        lemma_find_text(s, seq!['.'], 0);
        let n: int = a.len() as int;
        let d = choose|d: int| 0 <= d < a.len() && #[trigger] a[d] == '.';
        assert(s.subrange(d, d + 1) =~= seq!['.']);
        assert(text_at(s, seq!['.'], d));
        let at = find_text(s, seq!['.'], 0);
        assert(0 <= at <= d);
        let rest = a.skip(at + 1);
        assert(s.skip(at + 1) =~= rest.push('.') + ext);
        lemma_last_part(rest, ext);
        let more = parts(s.skip(at + 1), '.');
        lemma_some_part(s.skip(at + 1));
        assert(parts(s, '.').last() == more.last());
    }
}

proof fn lemma_some_part(s: Seq<char>)
    ensures
        parts(s, '.').len() > 0,
{
}

/// The last item of a feed that breaks off goes to the end.
pub proof fn law_last_item_goes_to_the_end(a: Seq<char>, item: Seq<char>, left: int)
    requires
        ({
            let s = a + "<item>"@ + item;
            &&& forall|k: int| 0 <= k < a.len() ==> !text_at(s, "<item>"@, k)
            &&& forall|k: int| a.len() + 6 <= k ==> !text_at(s, "</item>"@, k)
        }),
        left > 0,
        item_hit(item) is Some,
    ensures
        feed_hits(a + "<item>"@ + item, left) == seq![item_hit(item)->0],
{
    reveal_with_fuel(feed_hits, 2);
    reveal_strlit("<item>");
    reveal_strlit("</item>");
    let s = a + "<item>"@ + item;
    let n: int = a.len() as int;
    let from: int = n + 6;
    assert(s.subrange(n, n + 6) =~= "<item>"@);
    lemma_find_text(s, "<item>"@, 0);
    assert(text_at(s, "<item>"@, n));
    assert(find_text(s, "<item>"@, 0) == n);
    lemma_find_text(s, "</item>"@, from);
    assert(find_text(s, "</item>"@, from) < 0);
    assert(s.subrange(from, s.len() as int) =~= item);
    let end = s.skip(s.len() as int);
    assert(end.len() == 0);
    lemma_find_text(end, "<item>"@, 0);
    assert(feed_hits(end, left - 1) =~= Seq::<Hit>::empty());
    assert(seq![item_hit(item)->0] + feed_hits(end, left - 1) =~= seq![item_hit(item)->0]);
}

/// The text of a hit has no tags and no runs of spaces, and is cut where it takes
/// more than two hundred bytes.
pub proof fn law_text_of_a_hit(s: Seq<char>) -> (k: int)
    ensures
        ({
            let whole = single_spaced(without_tags(s, false), ' ');
            &&& text_width(whole) <= 200 ==> plain_text(s) == trimmed(whole)
            &&& text_width(whole) > 200 ==> {
                &&& 0 <= k < whole.len()
                &&& plain_text(s) == trimmed(whole.take(k) + seq!['\u{2026}'])
                &&& text_width(whole.take(k)) <= 200 < text_width(whole.take(k + 1))
            }
        }),
{
    law_shortened_text_fits(single_spaced(without_tags(s, false), ' '), 200)
}

/// An item is a hit exactly where its title and its address are more than white
/// space. The hit has both without white space around them, and the text of the
/// description where there is one.
pub proof fn law_what_makes_a_hit(item: Seq<char>)
    ensures
        ({
            let title = field_of(item, "title"@);
            let link = field_of(item, "link"@);
            let text = field_of(item, "description"@);
            let hit = item_hit(item);
            &&& hit is Some <==> title is Some && link is Some && trimmed(title->0).len() > 0
                && trimmed(link->0).len() > 0
            &&& hit is Some ==> (hit->0).0 == trimmed(title->0) && (hit->0).1 == trimmed(link->0)
            &&& hit is Some && text is Some ==> (hit->0).2 == plain_text(text->0)
        }),
{
    assert(trimmed(Seq::<char>::empty()) =~= Seq::<char>::empty());
}

} // verus!
