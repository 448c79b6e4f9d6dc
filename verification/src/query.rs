//! Which paths a query selects. A query is a list of keywords. A path is
//! selected where the keywords occur in it one after the other, and the last
//! component of the last keyword occurs in the last component of the path.
//! Paths and keywords are compared in lower case, as the standard library
//! turns text into it, and by the UTF-8 bytes of that.

use vstd::prelude::*;
use vstd::slice::*;
use vstd::string::*;
use vstd::utf8::*;

verus! {

/// The byte that separates the components of a path.
pub const SEPARATOR: u8 = 47;

/// A text in lower case, as `str::to_lowercase` gives it.
pub uninterp spec fn lowercase(text: Seq<char>) -> Seq<char>;

/// `str::to_lowercase`: the text with every letter turned into lower case,
/// as Unicode defines it, which depends on the text alone.
#[verifier::external_body]
fn to_lower(text: &str) -> (lower: String)
    ensures
        lower@ == lowercase(text@),
{
    text.to_lowercase()
}

/// The bytes that a text is compared by.
pub open spec fn key_of(text: Seq<char>) -> Seq<u8> {
    encode_utf8(lowercase(text))
}

/// The bytes that a text is compared by.
pub fn key(text: &str) -> (bytes: Vec<u8>)
    ensures
        bytes@ == key_of(text@),
{
    to_lower(text).as_str().as_bytes_vec()
}

/// The keywords that the fragments of a query stand for.
pub open spec fn keys_of(fragments: Seq<String>) -> Seq<Seq<u8>> {
    Seq::new(fragments.len(), |i: int| key_of(fragments[i]@))
}

/// Whether `needle` stands in `hay` at the place `at`.
pub open spec fn occurs_at(hay: Seq<u8>, needle: Seq<u8>, at: int) -> bool {
    &&& 0 <= at
    &&& at + needle.len() <= hay.len()
    &&& hay.subrange(at, at + needle.len()) == needle
}

/// Whether `needle` stands somewhere in `hay`.
pub open spec fn occurs(hay: Seq<u8>, needle: Seq<u8>) -> bool {
    exists|at: int| occurs_at(hay, needle, at)
}

/// Whether the needles stand in `hay` at or after `from`, one after the
/// other and none reaching into the next.
pub open spec fn in_order(hay: Seq<u8>, needles: Seq<Seq<u8>>, from: int) -> bool
    decreases needles.len(),
{
    if needles.len() == 0 {
        true
    } else {
        exists|at: int|
            from <= at && #[trigger] occurs_at(hay, needles.first(), at) && in_order(
                hay,
                needles.drop_first(),
                at + needles.first().len(),
            )
    }
}

/// Where the last component starts: behind the last separator, or at the
/// start where there is none.
pub open spec fn component_start(bytes: Seq<u8>) -> int
    decreases bytes.len(),
{
    if bytes.len() == 0 {
        0
    } else if bytes.last() == SEPARATOR {
        bytes.len() as int
    } else {
        component_start(bytes.drop_last())
    }
}

/// What follows the last separator; all of it where there is none.
pub open spec fn last_component(bytes: Seq<u8>) -> Seq<u8> {
    bytes.skip(component_start(bytes))
}

/// Whether the keywords select the path.
pub open spec fn selects(keys: Seq<Seq<u8>>, path: Seq<char>) -> bool {
    let hay = key_of(path);
    &&& in_order(hay, keys, 0)
    &&& keys.len() > 0 ==> occurs(last_component(hay), last_component(keys.last()))
}

/// Needles that stand in order after a place stand in order after every
/// earlier place.
pub proof fn lemma_in_order_from_earlier(
    hay: Seq<u8>,
    needles: Seq<Seq<u8>>,
    earlier: int,
    later: int,
)
    requires
        earlier <= later,
        in_order(hay, needles, later),
    ensures
        in_order(hay, needles, earlier),
{
    if needles.len() > 0 {
        let at = choose|at: int|
            later <= at && #[trigger] occurs_at(hay, needles.first(), at) && in_order(
                hay,
                needles.drop_first(),
                at + needles.first().len(),
            );
        assert(earlier <= at && occurs_at(hay, needles.first(), at));
    }
}

/// Taking the first place at which a needle stands loses nothing: the other
/// needles stand in order behind it wherever all of them stand in order.
pub proof fn lemma_in_order_first_place(hay: Seq<u8>, needles: Seq<Seq<u8>>, from: int, first: int)
    requires
        needles.len() > 0,
        from <= first,
        occurs_at(hay, needles.first(), first),
        forall|at: int| from <= at < first ==> !occurs_at(hay, needles.first(), at),
    ensures
        in_order(hay, needles, from) == in_order(
            hay,
            needles.drop_first(),
            first + needles.first().len(),
        ),
{
    if in_order(hay, needles, from) {
        let at = choose|at: int|
            from <= at && #[trigger] occurs_at(hay, needles.first(), at) && in_order(
                hay,
                needles.drop_first(),
                at + needles.first().len(),
            );
        lemma_in_order_from_earlier(
            hay,
            needles.drop_first(),
            first + needles.first().len(),
            at + needles.first().len(),
        );
    }
}

/// The start of the last component lies within the bytes, a separator
/// stands before it unless it is the start, and none stands behind it.
pub proof fn lemma_component_start(bytes: Seq<u8>)
    ensures
        0 <= component_start(bytes) <= bytes.len(),
        component_start(bytes) > 0 ==> bytes[component_start(bytes) - 1] == SEPARATOR,
        forall|i: int| component_start(bytes) <= i < bytes.len() ==> bytes[i] != SEPARATOR,
    decreases bytes.len(),
{
    if bytes.len() > 0 && bytes.last() != SEPARATOR {
        let front = bytes.drop_last();
        lemma_component_start(front);
        assert forall|i: int| component_start(bytes) <= i < bytes.len() implies bytes[i]
            != SEPARATOR by {
            if i < front.len() {
                assert(bytes[i] == front[i]);
            }
        }
    }
}

/// A path is selected by the query that is made of the path alone.
pub proof fn law_path_selects_itself(path: Seq<char>)
    ensures
        selects(seq![key_of(path)], path),
{
    let hay = key_of(path);
    let keys = seq![hay];
    assert(hay.subrange(0, hay.len() as int) =~= hay);
    assert(occurs_at(hay, keys.first(), 0));
    assert(keys.drop_first().len() == 0);
    assert(in_order(hay, keys.drop_first(), 0 + keys.first().len() as int));
    let name = last_component(hay);
    assert(name.subrange(0, name.len() as int) =~= name);
    assert(occurs_at(name, name, 0));
}

/// A query without keywords selects every path.
pub proof fn law_no_keyword_selects_all(path: Seq<char>)
    ensures
        selects(Seq::<Seq<u8>>::empty(), path),
{
}

/// A path that a query selects holds every keyword of the query.
pub proof fn law_selected_holds_keywords(keys: Seq<Seq<u8>>, path: Seq<char>, at: int)
    requires
        selects(keys, path),
        0 <= at < keys.len(),
    ensures
        occurs(key_of(path), keys[at]),
{
    lemma_in_order_holds(key_of(path), keys, 0, at);
}

/// Of needles that stand in order each one stands somewhere.
pub proof fn lemma_in_order_holds(hay: Seq<u8>, needles: Seq<Seq<u8>>, from: int, at: int)
    requires
        in_order(hay, needles, from),
        0 <= at < needles.len(),
    ensures
        occurs(hay, needles[at]),
    decreases needles.len(),
{
    let place = choose|place: int|
        from <= place && #[trigger] occurs_at(hay, needles.first(), place) && in_order(
            hay,
            needles.drop_first(),
            place + needles.first().len(),
        );
    if at == 0 {
        assert(occurs_at(hay, needles[0], place));
    } else {
        lemma_in_order_holds(hay, needles.drop_first(), place + needles.first().len(), at - 1);
        assert(needles.drop_first()[at - 1] == needles[at]);
    }
}

/// Whether `needle` stands in `hay` at the place `at`.
pub fn stands_at(hay: &[u8], needle: &[u8], at: usize) -> (found: bool)
    ensures
        found == occurs_at(hay@, needle@, at as int),
{
    if at > hay.len() || needle.len() > hay.len() - at {
        return false;
    }
    let mut i: usize = 0;
    while i < needle.len()
        invariant
            i <= needle@.len(),
            at + needle@.len() <= hay@.len() <= usize::MAX,
            forall|k: int| 0 <= k < i ==> hay@[at + k] == needle@[k],
        decreases needle@.len() - i,
    {
        if hay[at + i] != needle[i] {
            assert(hay@.subrange(at as int, at + needle@.len())[i as int] != needle@[i as int]);
            return false;
        }
        i += 1;
    }
    assert(hay@.subrange(at as int, at + needle@.len()) =~= needle@);
    true
}

/// The first place at or after `from` at which `needle` stands in `hay`.
pub fn find(hay: &[u8], needle: &[u8], from: usize) -> (place: Option<usize>)
    ensures
        match place {
            Some(at) => from <= at && occurs_at(hay@, needle@, at as int) && forall|p: int|
                from <= p < at ==> !occurs_at(hay@, needle@, p),
            None => forall|p: int| from <= p ==> !occurs_at(hay@, needle@, p),
        },
{
    if from > hay.len() || needle.len() > hay.len() - from {
        return None;
    }
    let last: usize = hay.len() - needle.len();
    let mut at: usize = from;
    while at < last
        invariant
            from <= at <= last,
            last == hay@.len() - needle@.len(),
            forall|p: int| from <= p < at ==> !occurs_at(hay@, needle@, p),
        decreases last - at,
    {
        if stands_at(hay, needle, at) {
            return Some(at);
        }
        at += 1;
    }
    if stands_at(hay, needle, last) {
        Some(last)
    } else {
        None
    }
}

/// Where the last component of `bytes` starts.
pub fn last_component_start(bytes: &[u8]) -> (start: usize)
    ensures
        start == component_start(bytes@),
{
    let mut start: usize = bytes.len();
    assert(bytes@.take(start as int) =~= bytes@);
    while start > 0 && bytes[start - 1] != SEPARATOR
        invariant
            start <= bytes@.len(),
            component_start(bytes@) == component_start(bytes@.take(start as int)),
        decreases start,
    {
        assert(bytes@.take(start as int).drop_last() =~= bytes@.take(start - 1));
        start -= 1;
    }
    start
}

/// The keywords of a query, ready to be compared with paths.
#[derive(Debug)]
pub struct Query {
    keys: Vec<Vec<u8>>,
}

impl View for Query {
    type V = Seq<Seq<u8>>;

    /// The keywords.
    closed spec fn view(&self) -> Seq<Seq<u8>> {
        Seq::new(self.keys@.len(), |i: int| self.keys@[i]@)
    }
}

impl Query {
    /// The query that is made of the given fragments.
    pub fn new(fragments: &[String]) -> (query: Query)
        ensures
            query@ == keys_of(fragments@),
    {
        let mut keys: Vec<Vec<u8>> = Vec::new();
        let mut i: usize = 0;
        while i < fragments.len()
            invariant
                i <= fragments@.len(),
                keys@.len() == i,
                forall|k: int| 0 <= k < i ==> (#[trigger] keys@[k])@ == key_of(fragments@[k]@),
            decreases fragments@.len() - i,
        {
            let key = key(fragments[i].as_str());
            keys.push(key);
            i += 1;
        }
        let query = Query { keys };
        assert(query@ =~= keys_of(fragments@));
        query
    }

    /// Whether the query selects the path.
    pub fn matches(&self, path: &str) -> (selected: bool)
        ensures
            selected == selects(self@, path@),
    {
        let hay = key(path);
        let size: usize = hay.len();
        let count: usize = self.keys.len();
        let mut from: usize = 0;
        let mut i: usize = 0;
        assert(self@.skip(0) =~= self@);
        while i < count
            invariant
                i <= count,
                count == self.keys@.len(),
                from <= hay@.len() == size,
                hay@ == key_of(path@),
                in_order(hay@, self@, 0) == in_order(hay@, self@.skip(i as int), from as int),
            decreases count - i,
        {
            let key = &self.keys[i];
            let ghost rest = self@.skip(i as int);
            assert(rest.first() == key@);
            assert(rest.drop_first() =~= self@.skip(i + 1));
            match find(hay.as_slice(), key.as_slice(), from) {
                None => {
                    return false;
                },
                Some(at) => {
                    proof {
                        lemma_in_order_first_place(hay@, rest, from as int, at as int);
                    }
                    assert(occurs_at(hay@, key@, at as int));
                    from = at + key.len();
                },
            }
            i += 1;
        }
        if count == 0 {
            return true;
        }
        let last = &self.keys[count - 1];
        assert(self@.last() == last@);
        let hay_start = last_component_start(hay.as_slice());
        let key_start = last_component_start(last.as_slice());
        proof {
            lemma_component_start(hay@);
            lemma_component_start(last@);
        }
        let name = slice_subrange(hay.as_slice(), hay_start, hay.len());
        let wanted = slice_subrange(last.as_slice(), key_start, last.len());
        assert(name@ =~= last_component(hay@));
        assert(wanted@ =~= last_component(last@));
        find(name, wanted, 0).is_some()
    }
}

} // verus!
