use vstd::prelude::*;
use crate::codec::{city_hash32, city_hash32_of, code_of, encode_fingerprint};
use crate::error::{Error, ErrorView};
use crate::partition::{partition_for, partition_of, Partition};

verus! {

/// How many distinct URLs one code can tell apart.
pub const MAX_COLLISIONS: usize = 16;

/// A stored short link.
#[derive(Debug, Clone)]
pub struct ShortLinkRecord {
    pub short_code: String,
    pub original_url: String,
    pub sequence: u32,
}

/// The mathematical value of a [`ShortLinkRecord`].
pub ghost struct LinkView {
    pub code: Seq<char>,
    pub url: Seq<char>,
    pub sequence: nat,
}

impl View for ShortLinkRecord {
    type V = LinkView;

    open spec fn view(&self) -> LinkView {
        LinkView { code: self.short_code@, url: self.original_url@, sequence: self.sequence as nat }
    }
}

/// The number of records of `s` under `code`.
pub open spec fn count_code(s: Seq<LinkView>, code: Seq<char>) -> nat
    decreases s.len(),
{
    if s.len() == 0 {
        0
    } else {
        count_code(s.drop_last(), code) + if s.last().code == code {
            1nat
        } else {
            0nat
        }
    }
}

/// Whether `s` holds a record of `url` under `code`.
pub open spec fn has_link(s: Seq<LinkView>, code: Seq<char>, url: Seq<char>) -> bool {
    exists|i: int| 0 <= i < s.len() && s[i].code == code && s[i].url == url
}

/// The URL of the latest record of `s` under `code` with ordinal `sequence`.
pub open spec fn url_for(s: Seq<LinkView>, code: Seq<char>, sequence: nat) -> Option<Seq<char>>
    decreases s.len(),
{
    if s.len() == 0 {
        None
    } else if s.last().code == code && s.last().sequence == sequence {
        Some(s.last().url)
    } else {
        url_for(s.drop_last(), code, sequence)
    }
}

/// What `create` does once it knows how many records share the code and
/// whether the URL is among them.
#[derive(Debug, Clone, Copy, PartialEq, Eq)]
pub enum CreateDecision {
    /// The URL is stored already: hand back the code, write nothing.
    Reuse,
    /// Store a new record with this ordinal.
    Insert(u32),
    /// The code's sixteen ordinals are taken.
    Overflow,
}

/// The decision for a code held by `count` records, `stored` telling whether
/// one of them is the URL's.
pub open spec fn decision_for(count: nat, stored: bool) -> CreateDecision {
    if count >= MAX_COLLISIONS {
        CreateDecision::Overflow
    } else if count > 0 && stored {
        CreateDecision::Reuse
    } else {
        CreateDecision::Insert(count as u32)
    }
}

/// Decides a create from the number of records under the code and whether
/// one of them is the URL's. Where `count` is zero, `already_stored` is not
/// consulted.
pub fn decide_create(count: usize, already_stored: bool) -> (r: CreateDecision)
    ensures
        r == decision_for(count as nat, already_stored),
{
    if count >= MAX_COLLISIONS {
        CreateDecision::Overflow
    } else if count > 0 && already_stored {
        CreateDecision::Reuse
    } else {
        CreateDecision::Insert(count as u32)
    }
}

/// The records of each partition.
pub ghost struct StoreModel {
    pub upper: Seq<LinkView>,
    pub lower: Seq<LinkView>,
    pub digit: Seq<LinkView>,
}

impl StoreModel {
    pub open spec fn part(self, p: Partition) -> Seq<LinkView> {
        match p {
            Partition::Upper => self.upper,
            Partition::Lower => self.lower,
            Partition::Digit => self.digit,
        }
    }

    pub open spec fn with_part(self, p: Partition, s: Seq<LinkView>) -> StoreModel {
        match p {
            Partition::Upper => StoreModel { upper: s, ..self },
            Partition::Lower => StoreModel { lower: s, ..self },
            Partition::Digit => StoreModel { digit: s, ..self },
        }
    }
}

/// What a create of `url` at fingerprint `h` returns, and the store after it.
pub open spec fn create_model(s: StoreModel, h: u32, url: Seq<char>) -> (
    Result<Seq<char>, ErrorView>,
    StoreModel,
) {
    if url.len() == 0 {
        (Err(ErrorView::Params), s)
    } else {
        let code = code_of(h);
        let p = partition_for(code[0]);
        let part = s.part(p);
        let n = count_code(part, code);
        match decision_for(n, has_link(part, code, url)) {
            CreateDecision::Overflow => (Err(ErrorView::Overflow(url)), s),
            CreateDecision::Reuse => (Ok(code), s),
            CreateDecision::Insert(k) => (
                Ok(code),
                s.with_part(p, part.push(LinkView { code, url, sequence: k as nat })),
            ),
        }
    }
}

/// The view of a `Result<String, Error>`.
pub open spec fn result_view(r: Result<String, Error>) -> Result<Seq<char>, ErrorView> {
    match r {
        Ok(s) => Ok(s@),
        Err(e) => Err(e@),
    }
}

/// The record store, one list of records per partition.
pub struct LinkStore {
    upper: Vec<ShortLinkRecord>,
    lower: Vec<ShortLinkRecord>,
    digit: Vec<ShortLinkRecord>,
}

pub open spec fn links(v: Seq<ShortLinkRecord>) -> Seq<LinkView> {
    v.map_values(|r: ShortLinkRecord| r@)
}

impl View for LinkStore {
    type V = StoreModel;

    closed spec fn view(&self) -> StoreModel {
        StoreModel { upper: links(self.upper@), lower: links(self.lower@), digit: links(self.digit@) }
    }
}

fn count_in(v: &Vec<ShortLinkRecord>, code: &String) -> (r: usize)
    ensures
        r == count_code(links(v@), code@),
{
    let mut n: usize = 0;
    let mut i: usize = 0;
    while i < v.len()
        invariant
            i <= v.len(),
            n <= i,
            n == count_code(links(v@).take(i as int), code@),
        decreases v.len() - i,
    {
        assert(links(v@).take(i + 1).drop_last() =~= links(v@).take(i as int));
        if v[i].short_code == *code {
            n = n + 1;
        }
        i = i + 1;
    }
    assert(links(v@).take(i as int) =~= links(v@));
    n
}

fn holds_link(v: &Vec<ShortLinkRecord>, code: &String, url: &String) -> (r: bool)
    ensures
        r == has_link(links(v@), code@, url@),
{
    let mut i: usize = 0;
    while i < v.len()
        invariant
            i <= v.len(),
            forall|j: int| 0 <= j < i ==> !(links(v@)[j].code == code@ && links(v@)[j].url == url@),
        decreases v.len() - i,
    {
        if v[i].short_code == *code && v[i].original_url == *url {
            assert(links(v@)[i as int].code == code@ && links(v@)[i as int].url == url@);
            return true;
        }
        i = i + 1;
    }
    false
}

fn find_url(v: &Vec<ShortLinkRecord>, code: &String, sequence: u32) -> (r: Option<String>)
    ensures
        match r {
            Some(u) => url_for(links(v@), code@, sequence as nat) == Some(u@),
            None => url_for(links(v@), code@, sequence as nat) is None,
        },
{
    let mut i: usize = v.len();
    assert(links(v@).take(i as int) =~= links(v@));
    while i > 0
        invariant
            i <= v.len(),
            url_for(links(v@), code@, sequence as nat) == url_for(
                links(v@).take(i as int),
                code@,
                sequence as nat,
            ),
        decreases i,
    {
        assert(links(v@).take(i as int).drop_last() =~= links(v@).take(i - 1));
        i = i - 1;
        if v[i].short_code == *code && v[i].sequence == sequence {
            return Some(v[i].original_url.clone());
        }
    }
    None
}

impl LinkStore {
    /// An empty store.
    pub fn new() -> (r: LinkStore)
        ensures
            r@.upper.len() == 0,
            r@.lower.len() == 0,
            r@.digit.len() == 0,
            store_wf(r@),
    {
        let r = LinkStore { upper: Vec::new(), lower: Vec::new(), digit: Vec::new() };
        assert(r@.upper =~= Seq::empty());
        assert(r@.lower =~= Seq::empty());
        assert(r@.digit =~= Seq::empty());
        r
    }

    /// The URL of the record of `code` with ordinal `sequence` in partition `p`.
    pub fn find(&self, p: Partition, code: &String, sequence: u32) -> (r: Option<String>)
        ensures
            match r {
                Some(u) => url_for(self@.part(p), code@, sequence as nat) == Some(u@),
                None => url_for(self@.part(p), code@, sequence as nat) is None,
            },
    {
        find_url(self.records(p), code, sequence)
    }

    fn records(&self, p: Partition) -> (r: &Vec<ShortLinkRecord>)
        ensures
            links(r@) == self@.part(p),
    {
        match p {
            Partition::Upper => &self.upper,
            Partition::Lower => &self.lower,
            Partition::Digit => &self.digit,
        }
    }

    fn add(&mut self, p: Partition, rec: ShortLinkRecord)
        ensures
            final(self)@ == old(self)@.with_part(p, old(self)@.part(p).push(rec@)),
    {
        match p {
            Partition::Upper => {
                self.upper.push(rec);
                assert(links(self.upper@) =~= links(old(self).upper@).push(rec@));
            },
            Partition::Lower => {
                self.lower.push(rec);
                assert(links(self.lower@) =~= links(old(self).lower@).push(rec@));
            },
            Partition::Digit => {
                self.digit.push(rec);
                assert(links(self.digit@) =~= links(old(self).digit@).push(rec@));
            },
        }
    }

    /// Stores `original_url` under the code of fingerprint `fingerprint`:
    /// a first URL gets ordinal 0, a URL stored already gets its code back
    /// with nothing written, a new colliding URL gets the next ordinal, and a
    /// seventeenth is refused.
    ///
    /// The code handed back is the same for every URL of the fingerprint and
    /// carries ordinal 0 in its last symbol; the URL stored with ordinal `k`
    /// is read back by presenting the code with `k` added to the position of
    /// its last symbol (see `decode`).
    pub fn create_with_fingerprint(&mut self, fingerprint: u32, original_url: &str) -> (r: Result<String, Error>)
        requires
            store_wf(old(self)@),
        ensures
            store_wf(final(self)@),
            (result_view(r), final(self)@) == create_model(old(self)@, fingerprint, original_url@),
    {
        proof {
            lemma_create_keeps_wf(self@, fingerprint, original_url@);
        }
        if original_url.unicode_len() == 0 {
            return Err(Error::ParamsError);
        }
        let url = String::from_str(original_url);
        let code = encode_fingerprint(fingerprint);
        let p = partition_of(code.as_str());
        let part = self.records(p);
        let count = count_in(part, &code);
        let stored = if count == 0 {
            false
        } else {
            holds_link(part, &code, &url)
        };
        match decide_create(count, stored) {
            CreateDecision::Overflow => Err(Error::Overflow(url)),
            CreateDecision::Reuse => Ok(code),
            CreateDecision::Insert(k) => {
                let rec = ShortLinkRecord { short_code: code.clone(), original_url: url, sequence: k };
                self.add(p, rec);
                Ok(code)
            },
        }
    }

    /// Stores `original_url` under its code; see `create_with_fingerprint`.
    pub fn create(&mut self, original_url: &str) -> (r: Result<String, Error>)
        requires
            store_wf(old(self)@),
        ensures
            store_wf(final(self)@),
            (result_view(r), final(self)@) == create_model(
                old(self)@,
                city_hash32_of(original_url@),
                original_url@,
            ),
    {
        let h = city_hash32(original_url);
        self.create_with_fingerprint(h, original_url)
    }
}


/// The records of one partition are well formed: each is routed by its code's
/// first character, its ordinal counts the earlier records of its code and
/// stays below sixteen, and no URL is stored twice under one code.
pub open spec fn part_wf(part: Seq<LinkView>, p: Partition) -> bool {
    forall|i: int|
        0 <= i < part.len() ==> {
            &&& #[trigger] part[i].code.len() > 0
            &&& partition_for(part[i].code[0]) == p
            &&& part[i].sequence == count_code(part.take(i), part[i].code)
            &&& part[i].sequence < MAX_COLLISIONS
            &&& forall|j: int|
                0 <= j < i ==> !(part[j].code == part[i].code && part[j].url == part[i].url)
        }
}

/// Every partition of the store is well formed.
pub open spec fn store_wf(s: StoreModel) -> bool {
    &&& part_wf(s.upper, Partition::Upper)
    &&& part_wf(s.lower, Partition::Lower)
    &&& part_wf(s.digit, Partition::Digit)
}

/// At most one record of `s` holds `url` under `code`.
pub open spec fn link_unique(s: Seq<LinkView>, code: Seq<char>, url: Seq<char>) -> bool {
    forall|i: int, j: int|
        0 <= i < s.len() && 0 <= j < s.len() && #[trigger] s[i].code == code && s[i].url == url
            && #[trigger] s[j].code == code && s[j].url == url ==> i == j
}

proof fn lemma_count_push(s: Seq<LinkView>, v: LinkView, code: Seq<char>)
    ensures
        count_code(s.push(v), code) == count_code(s, code) + if v.code == code {
            1nat
        } else {
            0nat
        },
{
    assert(s.push(v).drop_last() =~= s);
}

proof fn lemma_count_zero(s: Seq<LinkView>, code: Seq<char>)
    requires
        count_code(s, code) == 0,
    ensures
        !has_link_code(s, code),
    decreases s.len(),
{
    if s.len() > 0 {
        lemma_count_zero(s.drop_last(), code);
        assert forall|i: int| 0 <= i < s.len() implies s[i].code != code by {
            if i < s.len() - 1 {
                assert(s.drop_last()[i] == s[i]);
            }
        }
    }
}

/// Whether some record of `s` has `code`.
pub open spec fn has_link_code(s: Seq<LinkView>, code: Seq<char>) -> bool {
    exists|i: int| 0 <= i < s.len() && s[i].code == code
}

proof fn lemma_with_part(s: StoreModel, p: Partition, part: Seq<LinkView>, q: Partition)
    ensures
        s.with_part(p, part).part(q) == if q == p {
            part
        } else {
            s.part(q)
        },
{
}

proof fn lemma_part_wf_of(s: StoreModel, p: Partition)
    requires
        store_wf(s),
    ensures
        part_wf(s.part(p), p),
{
}

proof fn lemma_wf_part_push(part: Seq<LinkView>, p: Partition, v: LinkView)
    requires
        part_wf(part, p),
        v.code.len() > 0,
        partition_for(v.code[0]) == p,
        v.sequence == count_code(part, v.code),
        v.sequence < MAX_COLLISIONS,
        !has_link(part, v.code, v.url),
    ensures
        part_wf(part.push(v), p),
{
    let np = part.push(v);
    assert forall|i: int| 0 <= i < np.len() implies {
        &&& #[trigger] np[i].code.len() > 0
        &&& partition_for(np[i].code[0]) == p
        &&& np[i].sequence == count_code(np.take(i), np[i].code)
        &&& np[i].sequence < MAX_COLLISIONS
        &&& forall|j: int|
            0 <= j < i ==> !(np[j].code == np[i].code && np[j].url == np[i].url)
    } by {
        if i < part.len() {
            assert(np.take(i) =~= part.take(i));
            assert(np[i] == part[i]);
            assert(part[i].code.len() > 0);
            assert forall|j: int| 0 <= j < i implies !(np[j].code == np[i].code && np[j].url
                == np[i].url) by {
                assert(np[j] == part[j]);
            }
        } else {
            assert(np.take(i) =~= part);
            assert(np[i] == v);
            assert forall|j: int| 0 <= j < i implies !(np[j].code == np[i].code && np[j].url
                == np[i].url) by {
                assert(np[j] == part[j]);
                if part[j].code == v.code && part[j].url == v.url {
                    assert(has_link(part, v.code, v.url));
                }
            }
        }
    }
}

/// Creating a link keeps the store well formed: ordinals stay contiguous from
/// zero under each code, below sixteen, and no URL is stored twice under a code.
pub proof fn lemma_create_keeps_wf(s: StoreModel, h: u32, url: Seq<char>)
    requires
        store_wf(s),
    ensures
        store_wf(create_model(s, h, url).1),
{
    if url.len() > 0 {
        let code = code_of(h);
        let p = partition_for(code[0]);
        let part = s.part(p);
        let n = count_code(part, code);
        let stored = has_link(part, code, url);
        if let CreateDecision::Insert(k) = decision_for(n, stored) {
            let v = LinkView { code, url, sequence: k as nat };
            lemma_part_wf_of(s, p);
            if n == 0 {
                lemma_count_zero(part, code);
            }
            lemma_wf_part_push(part, p, v);
            let s1 = s.with_part(p, part.push(v));
            lemma_with_part(s, p, part.push(v), Partition::Upper);
            lemma_with_part(s, p, part.push(v), Partition::Lower);
            lemma_with_part(s, p, part.push(v), Partition::Digit);
        }
    }
}

/// Creating the same URL twice gives the same code both times, writes nothing
/// the second time, and leaves exactly one record of the URL under its code.
/// This holds while fewer than sixteen records share the code: at sixteen
/// every create of that code is refused, a stored URL's too.
pub proof fn lemma_create_idempotent(s: StoreModel, h: u32, url: Seq<char>)
    requires
        store_wf(s),
        url.len() > 0,
        create_model(s, h, url).0 is Ok,
        count_code(create_model(s, h, url).1.part(partition_for(code_of(h)[0])), code_of(h))
            < MAX_COLLISIONS,
    ensures
        create_model(create_model(s, h, url).1, h, url) == (
            create_model(s, h, url).0,
            create_model(s, h, url).1,
        ),
        has_link(create_model(s, h, url).1.part(partition_for(code_of(h)[0])), code_of(h), url),
        link_unique(
            create_model(s, h, url).1.part(partition_for(code_of(h)[0])),
            code_of(h),
            url,
        ),
{
    let code = code_of(h);
    let p = partition_for(code[0]);
    let part = s.part(p);
    let n = count_code(part, code);
    let s1 = create_model(s, h, url).1;
    lemma_create_keeps_wf(s, h, url);
    lemma_part_wf_of(s1, p);
    match decision_for(n, has_link(part, code, url)) {
        CreateDecision::Insert(k) => {
            let v = LinkView { code, url, sequence: k as nat };
            lemma_with_part(s, p, part.push(v), p);
            lemma_count_push(part, v, code);
            assert(part.push(v)[part.len() as int] == v);
        },
        _ => {},
    }
    let p1 = s1.part(p);
    assert forall|i: int, j: int|
        0 <= i < p1.len() && 0 <= j < p1.len() && #[trigger] p1[i].code == code && p1[i].url == url
            && #[trigger] p1[j].code == code && p1[j].url == url implies i == j by {
        if i < j {
            assert(p1[j].code.len() > 0);
        } else if j < i {
            assert(p1[i].code.len() > 0);
        }
    }
}

/// A URL not yet stored under its code gets the next ordinal, the number of
/// records already under the code, and raises that number by one; where
/// sixteen are there already it is refused with an overflow carrying the URL.
/// So distinct URLs of one code, created in turn, get ordinals 0, 1, ..., 15
/// in call order, and the seventeenth is refused.
pub proof fn lemma_collision_ordinal(s: StoreModel, h: u32, url: Seq<char>)
    requires
        store_wf(s),
        url.len() > 0,
        !has_link(s.part(partition_for(code_of(h)[0])), code_of(h), url),
    ensures
        ({
            let code = code_of(h);
            let p = partition_for(code[0]);
            let n = count_code(s.part(p), code);
            let (r, s1) = create_model(s, h, url);
            &&& n < MAX_COLLISIONS ==> {
                &&& r == Ok::<Seq<char>, ErrorView>(code)
                &&& s1.part(p) == s.part(p).push(LinkView { code, url, sequence: n })
                &&& count_code(s1.part(p), code) == n + 1
            }
            &&& n >= MAX_COLLISIONS ==> r == Err::<Seq<char>, ErrorView>(ErrorView::Overflow(url))
                && s1 == s
        }),
{
    let code = code_of(h);
    let p = partition_for(code[0]);
    let part = s.part(p);
    let n = count_code(part, code);
    if n < MAX_COLLISIONS {
        let v = LinkView { code, url, sequence: n };
        lemma_with_part(s, p, part.push(v), p);
        lemma_count_push(part, v, code);
    }
}


/// The store after creating each of `urls` in turn at fingerprint `h`.
pub open spec fn create_each(s: StoreModel, h: u32, urls: Seq<Seq<char>>) -> StoreModel
    decreases urls.len(),
{
    if urls.len() == 0 {
        s
    } else {
        create_model(create_each(s, h, urls.drop_last()), h, urls.last()).1
    }
}

/// The records of `urls` under `code`, with ordinals 0, 1, ... in order.
pub open spec fn numbered(code: Seq<char>, urls: Seq<Seq<char>>) -> Seq<LinkView> {
    urls.map(|i: int, u: Seq<char>| LinkView { code, url: u, sequence: i as nat })
}

/// Distinct URLs of one fingerprint whose code has no records yet, created in
/// turn, each get the code back and are stored with ordinals 0, 1, ... in call
/// order; sixteen of them fill the code, and a seventeenth distinct URL is then
/// refused with an overflow carrying it.
pub proof fn lemma_collisions_in_call_order(s: StoreModel, h: u32, urls: Seq<Seq<char>>)
    requires
        count_code(s.part(partition_for(code_of(h)[0])), code_of(h)) == 0,
        urls.len() <= MAX_COLLISIONS,
        forall|i: int| 0 <= i < urls.len() ==> #[trigger] urls[i].len() > 0,
        forall|i: int, j: int| 0 <= i < j < urls.len() ==> #[trigger] urls[i] != #[trigger] urls[j],
    ensures
        ({
            let code = code_of(h);
            let p = partition_for(code[0]);
            let s1 = create_each(s, h, urls);
            &&& s1.part(p) == s.part(p) + numbered(code, urls)
            &&& count_code(s1.part(p), code) == urls.len()
            &&& forall|i: int|
                0 <= i < urls.len() ==> (#[trigger] create_model(
                    create_each(s, h, urls.take(i)),
                    h,
                    urls[i],
                )).0 == Ok::<Seq<char>, ErrorView>(code)
            &&& forall|u: Seq<char>|
                u.len() > 0 && urls.len() == MAX_COLLISIONS && !urls.contains(u) ==> (
                #[trigger] create_model(s1, h, u)).0 == Err::<Seq<char>, ErrorView>(
                    ErrorView::Overflow(u),
                )
        }),
    decreases urls.len(),
{
    let code = code_of(h);
    let p = partition_for(code[0]);
    let base = s.part(p);
    lemma_count_zero(base, code);
    if urls.len() == 0 {
        assert(base + numbered(code, urls) =~= base);
    } else {
        let prev = urls.drop_last();
        let last = urls.last();
        let n = prev.len();
        assert forall|i: int| 0 <= i < prev.len() implies #[trigger] prev[i].len() > 0 by {
            assert(prev[i] == urls[i]);
        }
        assert forall|i: int, j: int| 0 <= i < j < prev.len() implies #[trigger] prev[i]
            != #[trigger] prev[j] by {
            assert(prev[i] == urls[i] && prev[j] == urls[j]);
        }
        lemma_collisions_in_call_order(s, h, prev);
        let s0 = create_each(s, h, prev);
        let part0 = s0.part(p);
        assert(!has_link(part0, code, last)) by {
            if has_link(part0, code, last) {
                let k = choose|k: int|
                    0 <= k < part0.len() && part0[k].code == code && part0[k].url == last;
                if k < base.len() {
                    assert(part0[k] == base[k]);
                } else {
                    assert(part0[k] == numbered(code, prev)[k - base.len()]);
                    assert(prev[k - base.len()] == urls[k - base.len()]);
                    assert(urls[k - base.len()] != urls[urls.len() - 1]);
                }
            }
        }
        let v = LinkView { code, url: last, sequence: n as nat };
        lemma_with_part(s0, p, part0.push(v), p);
        lemma_count_push(part0, v, code);
        assert(create_each(s, h, urls) == create_model(s0, h, last).1);
        assert(part0.push(v) =~= base + numbered(code, urls));
        let s1 = create_each(s, h, urls);
        assert forall|i: int| 0 <= i < urls.len() implies (#[trigger] create_model(
            create_each(s, h, urls.take(i)),
            h,
            urls[i],
        )).0 == Ok::<Seq<char>, ErrorView>(code) by {
            if i < n {
                assert(urls.take(i) =~= prev.take(i));
                assert(urls[i] == prev[i]);
            } else {
                assert(urls.take(i) =~= prev);
            }
        }
    }
}

} // verus!
