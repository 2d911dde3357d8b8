//! Instant answers: what is read from the JSON reply, and the order in which
//! the sources of a web search are asked.
use crate::text::{shortened, str_shorten, str_trim, trimmed};
use crate::web::{address, answer_url, feed_hits, feed_url, hits, parse_bing_rss, Hit, WebResult};
use vstd::prelude::*;

verus! {

/// A value of a JSON text, as `serde_json` holds it.
#[verifier::external_type_specification]
#[verifier::external_body]
pub struct ExJsonValue(serde_json::Value);

/// What `serde_json::from_str` reads from a text: the value, or the words of the
/// error where it is no JSON.
pub uninterp spec fn json_read(text: Seq<char>) -> Result<serde_json::Value, Seq<char>>;

/// What `serde_json::Value::get` finds under a key.
pub uninterp spec fn json_member(v: serde_json::Value, key: Seq<char>) -> Option<
    serde_json::Value,
>;

/// The text that `serde_json::Value::as_str` gives.
pub uninterp spec fn json_text(v: serde_json::Value) -> Option<Seq<char>>;

/// The items that `serde_json::Value::as_array` gives.
pub uninterp spec fn json_items(v: serde_json::Value) -> Option<Seq<serde_json::Value>>;

/// `serde_json::from_str`: the value that a text holds, or the words of the
/// error. Both depend on the text alone.
#[verifier::external_body]
fn read_json(text: &str) -> (r: Result<serde_json::Value, String>)
    ensures
        r is Ok <==> json_read(text@) is Ok,
        r is Ok ==> r->Ok_0 == json_read(text@)->Ok_0,
        r is Err ==> r->Err_0@ == json_read(text@)->Err_0,
{
    serde_json::from_str(text).map_err(|e| e.to_string())
}

/// `serde_json::Value::get`: what an object holds under a key.
#[verifier::external_body]
fn member<'a>(v: &'a serde_json::Value, key: &str) -> (r: Option<&'a serde_json::Value>)
    ensures
        r is Some <==> json_member(*v, key@) is Some,
        r is Some ==> *r->0 == json_member(*v, key@)->0,
{
    v.get(key)
}

/// `serde_json::Value::as_str`: the text of a string value.
#[verifier::external_body]
fn text_of(v: &serde_json::Value) -> (r: Option<&str>)
    ensures
        r is Some <==> json_text(*v) is Some,
        r is Some ==> r->0@ == json_text(*v)->0,
{
    v.as_str()
}

/// `serde_json::Value::as_array`: the items of an array value.
#[verifier::external_body]
fn items_of(v: &serde_json::Value) -> (r: Option<&Vec<serde_json::Value>>)
    ensures
        r is Some <==> json_items(*v) is Some,
        r is Some ==> r->0@ == json_items(*v)->0,
{
    v.as_array()
}

/// The text under a key.
pub open spec fn text_under(v: serde_json::Value, key: Seq<char>) -> Option<Seq<char>> {
    match json_member(v, key) {
        Some(m) => json_text(m),
        None => None,
    }
}

/// The items under a key.
pub open spec fn items_under(v: serde_json::Value, key: Seq<char>) -> Option<
    Seq<serde_json::Value>,
> {
    match json_member(v, key) {
        Some(m) => json_items(m),
        None => None,
    }
}

/// The text under a key.
fn text_at_key<'a>(v: &'a serde_json::Value, key: &str) -> (r: Option<&'a str>)
    ensures
        r is Some <==> text_under(*v, key@) is Some,
        r is Some ==> r->0@ == text_under(*v, key@)->0,
{
    match member(v, key) {
        Some(m) => text_of(m),
        None => None,
    }
}

/// The items under a key.
fn items_at_key<'a>(v: &'a serde_json::Value, key: &str) -> (r: Option<
    &'a Vec<serde_json::Value>,
>)
    ensures
        r is Some <==> items_under(*v, key@) is Some,
        r is Some ==> r->0@ == items_under(*v, key@)->0,
{
    match member(v, key) {
        Some(m) => items_of(m),
        None => None,
    }
}

/// A text and an address, where the reply has them.
pub type Lead = (Option<Seq<char>>, Option<Seq<char>>);

/// The text of a value, where there is one.
pub open spec fn opt_text(o: Option<String>) -> Option<Seq<char>> {
    match o {
        Some(s) => Some(s@),
        None => None,
    }
}

/// A topic of an answer.
pub struct Topic {
    pub text: Option<String>,
    pub url: Option<String>,
}

impl Topic {
    /// The text and the address of the topic.
    pub open spec fn view(&self) -> Lead {
        (opt_text(self.text), opt_text(self.url))
    }
}

/// The leads of some topics.
pub open spec fn leads(topics: Seq<Topic>) -> Seq<Lead> {
    topics.map_values(|t: Topic| t@)
}

/// An item of the list of topics: a group of topics, or one of its own.
pub struct Related {
    pub group: Option<Vec<Topic>>,
    pub own: Topic,
}

impl Related {
    /// The leads of the group, where there is one, and that of the item.
    pub open spec fn view(&self) -> (Option<Seq<Lead>>, Lead) {
        (
            match self.group {
                Some(g) => Some(leads(g@)),
                None => None,
            },
            self.own@,
        )
    }
}

/// An answer, as far as hits are made of it.
pub struct Answer {
    pub summary: Topic,
    pub related: Vec<Related>,
}

impl Answer {
    /// The lead of the summary, and those of the list of topics.
    pub open spec fn view(&self) -> (Lead, Seq<(Option<Seq<Lead>>, Lead)>) {
        (self.summary@, self.related@.map_values(|r: Related| r@))
    }
}

/// The topic that a value holds.
pub open spec fn json_topic(v: serde_json::Value) -> Lead {
    (text_under(v, "Text"@), text_under(v, "FirstURL"@))
}

/// The item of the list of topics that a value holds.
pub open spec fn json_related(v: serde_json::Value) -> (Option<Seq<Lead>>, Lead) {
    (
        match items_under(v, "Topics"@) {
            Some(subs) => Some(subs.map_values(|s: serde_json::Value| json_topic(s))),
            None => None,
        },
        json_topic(v),
    )
}

/// The answer that a value holds. A list that is not there is empty.
pub open spec fn json_answer(v: serde_json::Value) -> (Lead, Seq<(Option<Seq<Lead>>, Lead)>) {
    (
        (text_under(v, "AbstractText"@), text_under(v, "AbstractURL"@)),
        match items_under(v, "RelatedTopics"@) {
            Some(topics) => topics.map_values(|t: serde_json::Value| json_related(t)),
            None => Seq::empty(),
        },
    )
}

/// The text under a key, as a text of its own.
fn owned_text(v: &serde_json::Value, key: &str) -> (r: Option<String>)
    ensures
        opt_text(r) == text_under(*v, key@),
{
    match text_at_key(v, key) {
        Some(s) => Some(s.to_owned()),
        None => None,
    }
}

/// The topic that a value holds.
fn read_topic(v: &serde_json::Value) -> (r: Topic)
    ensures
        r@ == json_topic(*v),
{
    Topic { text: owned_text(v, "Text"), url: owned_text(v, "FirstURL") }
}

/// The topics that values hold.
fn read_topics(subs: &Vec<serde_json::Value>) -> (r: Vec<Topic>)
    ensures
        leads(r@) == subs@.map_values(|s: serde_json::Value| json_topic(s)),
{
    let mut out: Vec<Topic> = Vec::new();
    let mut i: usize = 0;
    while i < subs.len()
        invariant
            i <= subs.len(),
            out.len() == i,
            forall|k: int| 0 <= k < i ==> (#[trigger] out@[k])@ == json_topic(subs@[k]),
        decreases subs.len() - i,
    {
        out.push(read_topic(&subs[i]));
        i = i + 1;
    }
    assert(leads(out@) =~= subs@.map_values(|s: serde_json::Value| json_topic(s)));
    out
}

/// The item of the list of topics that a value holds.
fn read_related(v: &serde_json::Value) -> (r: Related)
    ensures
        r@ == json_related(*v),
{
    let group = match items_at_key(v, "Topics") {
        Some(subs) => Some(read_topics(subs)),
        None => None,
    };
    Related { group, own: read_topic(v) }
}

/// The answer that a value holds.
fn read_answer(v: &serde_json::Value) -> (r: Answer)
    ensures
        r@ == json_answer(*v),
{
    let summary = Topic {
        text: owned_text(v, "AbstractText"),
        url: owned_text(v, "AbstractURL"),
    };
    let mut related: Vec<Related> = Vec::new();
    match items_at_key(v, "RelatedTopics") {
        Some(topics) => {
            let mut i: usize = 0;
            while i < topics.len()
                invariant
                    i <= topics.len(),
                    related.len() == i,
                    forall|k: int|
                        0 <= k < i ==> (#[trigger] related@[k])@ == json_related(topics@[k]),
                decreases topics.len() - i,
            {
                related.push(read_related(&topics[i]));
                i = i + 1;
            }
            assert(related@.map_values(|r: Related| r@) =~= topics@.map_values(
                |t: serde_json::Value| json_related(t),
            ));
        },
        None => {
            assert(related@.map_values(|r: Related| r@) =~= Seq::empty());
        },
    }
    Answer { summary, related }
}

/// The hits with one more, if it has a title and an address. A title of more
/// than 110 bytes is cut.
pub open spec fn with_hit(out: Seq<Hit>, text: Seq<char>, url: Seq<char>) -> Seq<Hit> {
    if trimmed(text).len() == 0 || trimmed(url).len() == 0 {
        out
    } else {
        out.push((shortened(trimmed(text), 110), trimmed(url), Seq::empty()))
    }
}

/// Adds a hit, if it has a title and an address.
fn push_hit(out: &mut Vec<WebResult>, text: &str, url: &str)
    ensures
        hits(final(out)@) == with_hit(hits(old(out)@), text@, url@),
        final(out).len() <= old(out).len() + 1,
{
    let title = str_trim(text);
    let address = str_trim(url);
    if title.as_str().is_empty() || address.as_str().is_empty() {
        return ;
    }
    let short = str_shorten(title.as_str(), 110);
    let ghost before = out@;
    let snippet = String::new();
    assert(snippet@ =~= Seq::<char>::empty());
    out.push(WebResult { title: short, url: address, snippet });
    assert(hits(out@) =~= hits(before).push((short@, address@, snippet@)));
}

/// The hits with that of a lead, if it has a text and an address.
pub open spec fn with_lead(out: Seq<Hit>, lead: Lead) -> Seq<Hit> {
    if lead.0 is Some && lead.1 is Some {
        with_hit(out, lead.0->0, lead.1->0)
    } else {
        out
    }
}

/// Adds the hit of a topic, if it has a text and an address.
fn push_topic(out: &mut Vec<WebResult>, topic: &Topic)
    ensures
        hits(final(out)@) == with_lead(hits(old(out)@), topic@),
        final(out).len() <= old(out).len() + 1,
{
    match (&topic.text, &topic.url) {
        (Some(t), Some(u)) => {
            push_hit(out, t.as_str(), u.as_str());
        },
        _ => {},
    }
}

/// The hits with those of a group of topics from `i` on, until there are eight.
pub open spec fn with_group(out: Seq<Hit>, subs: Seq<Lead>, i: int) -> Seq<Hit>
    decreases subs.len() - i,
{
    if i < 0 || i >= subs.len() || out.len() >= 8 {
        out
    } else {
        with_group(with_lead(out, subs[i]), subs, i + 1)
    }
}

/// The hits with those of the topics from `i` on, until there are eight.
pub open spec fn with_topics(
    out: Seq<Hit>,
    topics: Seq<(Option<Seq<Lead>>, Lead)>,
    i: int,
) -> Seq<Hit>
    decreases topics.len() - i,
{
    if i < 0 || i >= topics.len() || out.len() >= 8 {
        out
    } else {
        let more = match topics[i].0 {
            Some(group) => with_group(out, group, 0),
            None => with_lead(out, topics[i].1),
        };
        with_topics(more, topics, i + 1)
    }
}

/// The hits of an answer: its summary, then its topics.
pub open spec fn answer_hits(a: (Lead, Seq<(Option<Seq<Lead>>, Lead)>)) -> Seq<Hit> {
    with_topics(with_lead(Seq::empty(), a.0), a.1, 0)
}

/// Adds the hits of a group of topics.
fn push_group(out: &mut Vec<WebResult>, subs: &Vec<Topic>)
    requires
        old(out).len() <= 8,
    ensures
        hits(final(out)@) == with_group(hits(old(out)@), leads(subs@), 0),
        final(out).len() <= 8,
{
    let ghost goal = with_group(hits(out@), leads(subs@), 0);
    let mut i: usize = 0;
    while i < subs.len() && out.len() < 8
        invariant
            i <= subs.len(),
            out.len() <= 8,
            with_group(hits(out@), leads(subs@), i as int) == goal,
        decreases subs.len() - i,
    {
        assert(leads(subs@)[i as int] == subs@[i as int]@);
        assert(hits(out@).len() == out.len());
        push_topic(out, &subs[i]);
        i = i + 1;
    }
    assert(hits(out@).len() == out.len());
}

/// The hits of an answer: its summary, then its topics, until there are eight.
pub fn answer_results(a: &Answer) -> (r: Vec<WebResult>)
    ensures
        hits(r@) == answer_hits(a@),
        r.len() <= 8,
{
    let mut out: Vec<WebResult> = Vec::new();
    assert(hits(out@) =~= Seq::<Hit>::empty());
    push_topic(&mut out, &a.summary);
    let ghost items = a@.1;
    let ghost goal = with_topics(hits(out@), items, 0);
    let mut i: usize = 0;
    while i < a.related.len() && out.len() < 8
        invariant
            items == a@.1,
            i <= a.related.len(),
            out.len() <= 8,
            with_topics(hits(out@), items, i as int) == goal,
        decreases a.related.len() - i,
    {
        let item = &a.related[i];
        assert(items[i as int] == a.related@[i as int]@);
        assert(hits(out@).len() == out.len());
        match &item.group {
            Some(subs) => {
                push_group(&mut out, subs);
            },
            None => {
                push_topic(&mut out, &item.own);
            },
        }
        i = i + 1;
    }
    assert(hits(out@).len() == out.len());
    out
}

/// The hits of a JSON reply, or the words of the error where it is no JSON.
pub fn parse_ddg(body: &str) -> (r: Result<Vec<WebResult>, String>)
    ensures
        r is Ok <==> json_read(body@) is Ok,
        r is Ok ==> hits(r->Ok_0@) == answer_hits(
            json_answer(json_read(body@)->Ok_0),
        ),
        r is Err ==> r->Err_0@ == json_read(body@)->Err_0,
{
    match read_json(body) {
        Ok(v) => Ok(answer_results(&read_answer(&v))),
        Err(e) => Err(e),
    }
}

/// What comes next in a web search.
pub enum WebStep {
    /// Fetch this address.
    Get(String),
    /// These are the hits.
    Done(Vec<WebResult>),
    /// The search failed, in these words.
    Failed(String),
}

/// Runs a web search one step further. `feed` and `answer` are the replies
/// that came so far: the body, or the words of the error. The instant answers
/// are asked only where the feed holds no hit.
pub fn fetch_web_results(
    query: &str,
    feed: &Option<Result<String, String>>,
    answer: &Option<Result<String, String>>,
) -> (r: WebStep)
    ensures
        match *feed {
            None => r is Get && r->Get_0@ == feed_url(query@),
            Some(Err(e)) => r is Failed && r->Failed_0@ == e@,
            Some(Ok(body)) => if feed_hits(body@, 5).len() > 0 {
                r is Done && hits(r->Done_0@) == feed_hits(body@, 5)
            } else {
                match *answer {
                    None => r is Get && r->Get_0@ == answer_url(query@),
                    Some(Err(e)) => r is Failed && r->Failed_0@ == e@,
                    Some(Ok(text)) => match json_read(text@) {
                        Ok(v) => r is Done && hits(r->Done_0@) == answer_hits(json_answer(v)),
                        Err(e) => r is Failed && r->Failed_0@ == e,
                    },
                }
            },
        },
{
    match feed {
        None => WebStep::Get(address("https://www.bing.com/search?q=", query, "&format=rss")),
        Some(Err(e)) => WebStep::Failed(e.clone()),
        Some(Ok(body)) => {
            let found = parse_bing_rss(body.as_str());
            assert(found.len() == hits(found@).len());
            if found.len() > 0 {
                return WebStep::Done(found);
            }
            match answer {
                None => WebStep::Get(
                    address(
                        "https://api.duckduckgo.com/?q=",
                        query,
                        "&format=json&no_html=1&skip_disambig=1",
                    ),
                ),
                Some(Err(e)) => WebStep::Failed(e.clone()),
                Some(Ok(text)) => match parse_ddg(text.as_str()) {
                    Ok(v) => WebStep::Done(v),
                    Err(e) => WebStep::Failed(e),
                },
            }
        },
    }
}

} // verus!
