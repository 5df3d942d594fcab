//! Data carried in DNS names: each chunk of a payload becomes a domain whose
//! labels hold its base32 text, and a name harvested back from resolver logs
//! gives its chunk. This module builds the names, keeps harvested chunks and
//! reassembles messages; sending queries is the caller's part.

use vstd::prelude::*;
use crate::encoding::{
    base32_encode, base32_text, hex_padded8, hex_value, lemma_hex_padded_digits,
    lemma_hex_padded_round_trip, parse_hex_usize, spec_hex_padded, spec_parse_hex_usize,
};
use crate::wire::{append_bytes, bytes_equal, slice_to_vec};

verus! {

/// First characters of every data label.
pub const DNS_SPORE_PREFIX: &'static str = "inertia";
/// Last label of every spore domain.
pub const DNS_SPORE_SUFFIX: &'static str = "spore";
/// Time to live of a spore record, in seconds.
pub const DNS_SPORE_TTL: u32 = 120;
/// Longest DNS label.
pub const MAX_DOMAIN_LEN: usize = 63;
/// Longest domain name.
pub const MAX_FULL_DOMAIN: usize = 253;
/// Payload bytes per chunk.
pub const PAYLOAD_CHUNK_SIZE: usize = 32;
/// Base32 characters per data label (the label also holds the prefix).
pub const LABEL_TEXT_LEN: usize = 55;

/// Record type of the queries.
#[derive(Debug, Clone, Copy, PartialEq, Eq, Structural)]
pub enum DnsQueryType {
    A,
    TXT,
    MX,
    NS,
}

impl Default for DnsQueryType {
    fn default() -> (t: Self)
        ensures
            t == DnsQueryType::A,
    {
        DnsQueryType::A
    }
}

impl DnsQueryType {
    /// The record type's name as written on a query.
    pub fn record_name(self) -> (s: &'static str)
        ensures
            s@ == match self {
                DnsQueryType::A => "A"@,
                DnsQueryType::TXT => "TXT"@,
                DnsQueryType::MX => "MX"@,
                DnsQueryType::NS => "NS"@,
            },
    {
        match self {
            DnsQueryType::A => "A",
            DnsQueryType::TXT => "TXT",
            DnsQueryType::MX => "MX",
            DnsQueryType::NS => "NS",
        }
    }
}

/// The bytes of `inertia`.
pub open spec fn label_prefix() -> Seq<u8> {
    seq![105u8, 110u8, 101u8, 114u8, 116u8, 105u8, 97u8]
}

/// The bytes of `.spore`.
pub open spec fn dot_suffix() -> Seq<u8> {
    seq![46u8, 115u8, 112u8, 111u8, 114u8, 101u8]
}

/// The data labels for a base32 text, each followed by a dot: the text is cut
/// into pieces of `LABEL_TEXT_LEN` characters, each behind the prefix.
pub open spec fn spec_labels(text: Seq<u8>) -> Seq<u8>
    decreases text.len(),
{
    if text.len() == 0 {
        Seq::empty()
    } else {
        let take = if text.len() < LABEL_TEXT_LEN {
            text.len() as int
        } else {
            LABEL_TEXT_LEN as int
        };
        label_prefix() + text.take(take) + seq![46u8] + spec_labels(text.skip(take))
    }
}

/// The domain that carries `chunk`: its data labels, then the chunk id and
/// `spore`.
pub open spec fn spec_domain(chunk: Seq<u8>, chunk_id: Seq<u8>) -> Seq<u8> {
    spec_labels(base32_text(chunk)) + chunk_id + dot_suffix()
}

/// Chunk `i` of `payload`.
pub open spec fn spec_payload_chunk(payload: Seq<u8>, i: int) -> Seq<u8> {
    let start = i * PAYLOAD_CHUNK_SIZE;
    let end = if start + PAYLOAD_CHUNK_SIZE <= payload.len() {
        start + PAYLOAD_CHUNK_SIZE
    } else {
        payload.len() as int
    };
    payload.subrange(start, end)
}

/// Number of chunks of a payload of `len` bytes.
pub open spec fn chunk_count(len: nat) -> nat {
    (len + PAYLOAD_CHUNK_SIZE - 1) as nat / PAYLOAD_CHUNK_SIZE as nat
}

/// The views of harvested (name, bytes) entries.
pub open spec fn chunk_views(v: Seq<(String, Vec<u8>)>) -> Seq<(Seq<char>, Seq<u8>)> {
    v.map_values(|e: (String, Vec<u8>)| (e.0@, e.1@))
}

/// No name occurs twice.
pub open spec fn names_distinct(v: Seq<(Seq<char>, Seq<u8>)>) -> bool {
    forall|i: int, j: int| 0 <= i < j < v.len() ==> #[trigger] v[i].0 != #[trigger] v[j].0
}

/// `store` with the incoming entries whose name it does not hold yet appended,
/// in order (the first entry for a name wins).
pub open spec fn spec_merge(store: Seq<(Seq<char>, Seq<u8>)>, incoming: Seq<(Seq<char>, Seq<u8>)>) -> Seq<
    (Seq<char>, Seq<u8>),
>
    decreases incoming.len(),
{
    if incoming.len() == 0 {
        store
    } else {
        let acc = spec_merge(store, incoming.drop_last());
        if exists|j: int| 0 <= j < acc.len() && (#[trigger] acc[j]).0 == incoming.last().0 {
            acc
        } else {
            acc.push(incoming.last())
        }
    }
}

/// Position of the first dash of `s` at or after `from`, or -1 when there is none.
pub open spec fn dash_from(s: Seq<u8>, from: int) -> int
    decreases s.len() - from,
{
    if from < 0 || from >= s.len() {
        -1
    } else if s[from] == 45u8 {
        from
    } else {
        dash_from(s, from + 1)
    }
}

/// The group and number a harvested name gives: for `id-idx-rest`, the id and
/// `idx` read as hexadecimal (0 when it does not read); `None` for a name with
/// fewer than three dash-separated parts.
pub open spec fn spec_key_fields(k: Seq<u8>) -> Option<(Seq<u8>, nat)> {
    let a = dash_from(k, 0);
    if a < 0 {
        None
    } else {
        let b = dash_from(k, a + 1);
        if b < 0 {
            None
        } else {
            let idx = match spec_parse_hex_usize(k.subrange(a + 1, b)) {
                Some(v) => v,
                None => 0,
            };
            Some((k.take(a), idx))
        }
    }
}

/// The harvested entries whose names give a group: (group, number, position).
pub open spec fn spec_parsed(chunks: Seq<(Seq<char>, Seq<u8>)>) -> Seq<(Seq<u8>, nat, int)>
    decreases chunks.len(),
{
    if chunks.len() == 0 {
        Seq::empty()
    } else {
        let p = spec_parsed(chunks.drop_last());
        match spec_key_fields(vstd::utf8::encode_utf8(chunks.last().0)) {
            Some(f) => p.push((f.0, f.1, chunks.len() - 1)),
            None => p,
        }
    }
}

/// The groups, in order of first appearance.
pub open spec fn group_ids(p: Seq<(Seq<u8>, nat, int)>) -> Seq<Seq<u8>>
    decreases p.len(),
{
    if p.len() == 0 {
        Seq::empty()
    } else {
        let g = group_ids(p.drop_last());
        if g.contains(p.last().0) {
            g
        } else {
            g.push(p.last().0)
        }
    }
}

/// The (number, position) pairs of group `id`, in order.
pub open spec fn members(p: Seq<(Seq<u8>, nat, int)>, id: Seq<u8>) -> Seq<(nat, int)>
    decreases p.len(),
{
    if p.len() == 0 {
        Seq::empty()
    } else {
        let m = members(p.drop_last(), id);
        if p.last().0 == id {
            m.push((p.last().1, p.last().2))
        } else {
            m
        }
    }
}

/// Where a stable insertion puts an entry numbered `key`: after every entry
/// numbered `key` or less at the end of `s`.
pub open spec fn insert_pos(s: Seq<(nat, int)>, key: nat) -> int
    decreases s.len(),
{
    if s.len() == 0 {
        0
    } else if s.last().0 > key {
        insert_pos(s.drop_last(), key)
    } else {
        s.len() as int
    }
}

/// `s` with `x` inserted at its stable position.
pub open spec fn insert_sorted(s: Seq<(nat, int)>, x: (nat, int)) -> Seq<(nat, int)> {
    let k = insert_pos(s, x.0);
    s.take(k) + seq![x] + s.skip(k)
}

/// `s` sorted by number; entries with one number keep their order.
pub open spec fn stable_sort(s: Seq<(nat, int)>) -> Seq<(nat, int)>
    decreases s.len(),
{
    if s.len() == 0 {
        s
    } else {
        insert_sorted(stable_sort(s.drop_last()), s.last())
    }
}

/// The bytes of the harvested entries at the listed positions, joined.
pub open spec fn concat_data(chunks: Seq<(Seq<char>, Seq<u8>)>, list: Seq<(nat, int)>) -> Seq<u8>
    decreases list.len(),
{
    if list.len() == 0 {
        Seq::empty()
    } else {
        concat_data(chunks, list.drop_last()) + chunks[list.last().1].1
    }
}

/// The message of group `id`: its chunks by number, joined.
pub open spec fn spec_message(chunks: Seq<(Seq<char>, Seq<u8>)>, id: Seq<u8>) -> Seq<u8> {
    concat_data(chunks, stable_sort(members(spec_parsed(chunks), id)))
}

/// The non-empty messages of the first `n` groups of `gids`.
pub open spec fn messages_upto(chunks: Seq<(Seq<char>, Seq<u8>)>, gids: Seq<Seq<u8>>, n: nat) -> Seq<
    Seq<u8>,
>
    decreases n,
{
    if n == 0 {
        Seq::empty()
    } else {
        let prev = messages_upto(chunks, gids, (n - 1) as nat);
        let m = spec_message(chunks, gids[n - 1]);
        if m.len() > 0 {
            prev.push(m)
        } else {
            prev
        }
    }
}

/// Messages assembled from harvested chunks: entries are grouped by the id
/// before the first dash of their name (groups in order of first appearance),
/// each group's chunks are ordered by the hexadecimal number after it (equal
/// numbers keep their order) and joined, and empty messages are left out.
pub open spec fn spec_messages(chunks: Seq<(Seq<char>, Seq<u8>)>) -> Seq<Seq<u8>> {
    let gids = group_ids(spec_parsed(chunks));
    messages_upto(chunks, gids, gids.len())
}

/// The views of (number, position) lists.
pub open spec fn list_view(l: Seq<(usize, usize)>) -> Seq<(nat, int)> {
    l.map_values(|x: (usize, usize)| (x.0 as nat, x.1 as int))
}

/// The views of parsed entries.
pub open spec fn parsed_view(p: Seq<(Vec<u8>, usize, usize)>) -> Seq<(Seq<u8>, nat, int)> {
    p.map_values(|x: (Vec<u8>, usize, usize)| (x.0@, x.1 as nat, x.2 as int))
}

/// Position of the first dash of `s` at or after `from`.
fn dash_index(s: &[u8], from: usize) -> (r: Option<usize>)
    requires
        from <= s@.len(),
    ensures
        r is Some <==> dash_from(s@, from as int) >= 0,
        r matches Some(i) ==> i == dash_from(s@, from as int),
{
    let mut j: usize = from;
    while j < s.len()
        invariant
            from <= j <= s@.len(),
            dash_from(s@, from as int) == dash_from(s@, j as int),
        decreases s@.len() - j,
    {
        if s[j] == 45u8 {
            return Some(j);
        }
        j = j + 1;
    }
    None
}

/// The group and number a harvested name gives (see `spec_key_fields`).
fn key_fields(k: &[u8]) -> (r: Option<(Vec<u8>, usize)>)
    ensures
        r is Some <==> spec_key_fields(k@) is Some,
        r matches Some(f) ==> spec_key_fields(k@) == Some((f.0@, f.1 as nat)),
{
    let a = match dash_index(k, 0) {
        Some(a) => a,
        None => return None,
    };
    let n = k.len();
    proof {
        lemma_dash_bounds(k@, 0);
        assert(a < n);
    }
    let b = match dash_index(k, a + 1) {
        Some(b) => b,
        None => return None,
    };
    proof {
        lemma_dash_bounds(k@, a + 1);
    }
    let idx_text = slice_to_vec(k, a + 1, b);
    let idx = match parse_hex_usize(idx_text.as_slice()) {
        Some(v) => v,
        None => 0,
    };
    Some((slice_to_vec(k, 0, a), idx))
}

proof fn lemma_dash_bounds(s: Seq<u8>, from: int)
    requires
        0 <= from,
    ensures
        dash_from(s, from) >= 0 ==> from <= dash_from(s, from) < s.len() && s[dash_from(s, from)] == 45u8,
    decreases s.len() - from,
{
    if from < s.len() && s[from] != 45u8 {
        lemma_dash_bounds(s, from + 1);
    }
}

/// The views of group ids.
pub open spec fn ids_view(g: Seq<Vec<u8>>) -> Seq<Seq<u8>> {
    g.map_values(|x: Vec<u8>| x@)
}

/// Reads the group and number of every harvested entry whose name gives one.
fn parse_entries(chunks: &Vec<(String, Vec<u8>)>) -> (p: Vec<(Vec<u8>, usize, usize)>)
    ensures
        parsed_view(p@) == spec_parsed(chunk_views(chunks@)),
        forall|t: int| 0 <= t < p@.len() ==> (#[trigger] p@[t]).2 < chunks@.len(),
{
    let ghost cv = chunk_views(chunks@);
    let mut p: Vec<(Vec<u8>, usize, usize)> = Vec::new();
    let mut i: usize = 0;
    assert(cv.take(0) =~= Seq::<(Seq<char>, Seq<u8>)>::empty());
    while i < chunks.len()
        invariant
            i <= chunks@.len(),
            cv == chunk_views(chunks@),
            parsed_view(p@) == spec_parsed(cv.take(i as int)),
            forall|t: int| 0 <= t < p@.len() ==> (#[trigger] p@[t]).2 < i,
        decreases chunks@.len() - i,
    {
        let key = chunks[i].0.as_str().as_bytes();
        let ghost pre = cv.take(i + 1);
        proof {
            assert(pre.drop_last() =~= cv.take(i as int));
            assert(pre.last() == cv[i as int]);
            assert(cv[i as int] == (chunks@[i as int].0@, chunks@[i as int].1@));
        }
        let ghost before = p@;
        match key_fields(key) {
            Some(f) => {
                let id = f.0;
                let idx = f.1;
                p.push((id, idx, i));
                proof {
                    assert(parsed_view(p@) =~= parsed_view(before).push((id@, idx as nat, i as int)));
                }
            },
            None => {},
        }
        i = i + 1;
    }
    assert(cv.take(i as int) =~= cv);
    p
}

/// Index of the group `id` among `gids`.
fn find_group(gids: &Vec<Vec<u8>>, id: &Vec<u8>) -> (r: Option<usize>)
    ensures
        r is Some <==> ids_view(gids@).contains(id@),
        r matches Some(g) ==> g < gids@.len() && gids@[g as int]@ == id@,
{
    let mut g: usize = 0;
    while g < gids.len()
        invariant
            g <= gids@.len(),
            forall|t: int| 0 <= t < g ==> (#[trigger] gids@[t])@ != id@,
        decreases gids@.len() - g,
    {
        if bytes_equal(gids[g].as_slice(), id.as_slice()) {
            assert(ids_view(gids@)[g as int] == id@);
            return Some(g);
        }
        g = g + 1;
    }
    proof {
        if ids_view(gids@).contains(id@) {
            let t = choose|t: int| 0 <= t < ids_view(gids@).len() && ids_view(gids@)[t] == id@;
            assert(gids@[t]@ == id@);
        }
    }
    None
}

/// Inserts `x` into `l` at its stable position by number.
fn stable_insert(l: &mut Vec<(usize, usize)>, x: (usize, usize))
    ensures
        list_view(final(l)@) == insert_sorted(list_view(old(l)@), (x.0 as nat, x.1 as int)),
        forall|t: int| 0 <= t < final(l)@.len() ==> #[trigger] final(l)@[t] == x || old(l)@.contains(final(l)@[t]),
{
    let ghost v = list_view(l@);
    let mut j: usize = l.len();
    assert(v.take(j as int) =~= v);
    while j > 0 && l[j - 1].0 > x.0
        invariant
            j <= l@.len(),
            v == list_view(l@),
            insert_pos(v, x.0 as nat) == insert_pos(v.take(j as int), x.0 as nat),
        decreases j,
    {
        let ghost t = v.take(j as int);
        assert(t.last() == v[j - 1]);
        assert(t.drop_last() =~= v.take(j - 1));
        j = j - 1;
    }
    proof {
        let t = v.take(j as int);
        if j > 0 {
            assert(t.last() == v[j - 1]);
        }
        assert(insert_pos(t, x.0 as nat) == j);
    }
    let ghost old_l = l@;
    l.insert(j, x);
    proof {
        assert(list_view(l@) =~= v.take(j as int) + seq![(x.0 as nat, x.1 as int)] + v.skip(j as int));
        assert forall|t: int| 0 <= t < l@.len() implies #[trigger] l@[t] == x || old_l.contains(l@[t]) by {
            if t < j {
                assert(l@[t] == old_l[t]);
            } else if t > j {
                assert(l@[t] == old_l[t - 1]);
            }
        }
    }
}

/// Groups parsed entries by id (in order of first appearance) and orders each
/// group's (number, position) pairs stably by number.
fn group_entries(p: &Vec<(Vec<u8>, usize, usize)>, bound: usize) -> (r: (Vec<Vec<u8>>, Vec<Vec<(usize, usize)>>))
    requires
        forall|t: int| 0 <= t < p@.len() ==> (#[trigger] p@[t]).2 < bound,
    ensures
        ids_view(r.0@) == group_ids(parsed_view(p@)),
        r.1@.len() == r.0@.len(),
        forall|g: int| 0 <= g < r.0@.len() ==> list_view((#[trigger] r.1@[g])@) == stable_sort(
            members(parsed_view(p@), r.0@[g]@),
        ),
        forall|g: int, t: int| 0 <= g < r.1@.len() && 0 <= t < r.1@[g]@.len() ==> (#[trigger] r.1@[g]@[t]).1 < bound,
{
    let ghost pv = parsed_view(p@);
    let mut gids: Vec<Vec<u8>> = Vec::new();
    let mut lists: Vec<Vec<(usize, usize)>> = Vec::new();
    let mut q: usize = 0;
    assert(pv.take(0) =~= Seq::<(Seq<u8>, nat, int)>::empty());
    while q < p.len()
        invariant
            q <= p@.len(),
            pv == parsed_view(p@),
            forall|t: int| 0 <= t < p@.len() ==> (#[trigger] p@[t]).2 < bound,
            ids_view(gids@) == group_ids(pv.take(q as int)),
            ids_view(gids@).no_duplicates(),
            lists@.len() == gids@.len(),
            forall|g: int| 0 <= g < gids@.len() ==> list_view((#[trigger] lists@[g])@) == stable_sort(
                members(pv.take(q as int), gids@[g]@),
            ),
            forall|g: int, t: int| 0 <= g < lists@.len() && 0 <= t < lists@[g]@.len() ==> (#[trigger] lists@[g]@[t]).1 < bound,
        decreases p@.len() - q,
    {
        let e = &p[q];
        let ghost pre = pv.take(q + 1);
        let ghost e_view = (e.0@, e.1 as nat, e.2 as int);
        proof {
            assert(pre.drop_last() =~= pv.take(q as int));
            assert(pre.last() == pv[q as int]);
            assert(pv[q as int] == e_view);
        }
        let x = (e.1, e.2);
        let ghost old_lists = lists@;
        let ghost old_gids = gids@;
        match find_group(&gids, &e.0) {
            Some(g) => {
                let mut l: Vec<(usize, usize)> = Vec::new();
                lists.set_and_swap(g, &mut l);
                let ghost old_l = l@;
                stable_insert(&mut l, x);
                lists.set_and_swap(g, &mut l);
                proof {
                    assert(old_l == old_lists[g as int]@);
                    assert(group_ids(pre) == group_ids(pv.take(q as int)));
                    assert forall|h: int| 0 <= h < gids@.len() implies list_view((#[trigger] lists@[h])@)
                        == stable_sort(members(pre, gids@[h]@)) by {
                        if h == g {
                            assert(members(pre, gids@[h]@) == members(pv.take(q as int), gids@[h]@).push(
                                (e.1 as nat, e.2 as int),
                            ));
                            assert(members(pre, gids@[h]@).drop_last() =~= members(
                                pv.take(q as int),
                                gids@[h]@,
                            ));
                        } else {
                            assert(lists@[h] == old_lists[h]);
                            if gids@[h]@ == e.0@ {
                                assert(members(pre, gids@[h]@).drop_last() =~= members(
                                    pv.take(q as int),
                                    gids@[h]@,
                                ));
                                assert(false) by {
                                    assert(ids_view(gids@)[h] == ids_view(gids@)[g as int]);
                                }
                            }
                        }
                    }
                    assert forall|h: int, t: int| 0 <= h < lists@.len() && 0 <= t < lists@[h]@.len() implies (#[trigger] lists@[h]@[t]).1 < bound by {
                        if h == g {
                            if lists@[h]@[t] != x {
                                let k = choose|k: int| 0 <= k < old_l.len() && old_l[k] == lists@[h]@[t];
                                assert(old_lists[g as int]@[k] == old_l[k]);
                            }
                        } else {
                            assert(lists@[h] == old_lists[h]);
                        }
                    }
                }
            },
            None => {
                let id_copy = slice_to_vec(e.0.as_slice(), 0, e.0.len());
                assert(id_copy@ =~= e.0@);
                gids.push(id_copy);
                let mut l: Vec<(usize, usize)> = Vec::new();
                let ghost empty_l = l@;
                stable_insert(&mut l, x);
                lists.push(l);
                proof {
                    assert(ids_view(gids@) =~= ids_view(old_gids).push(e.0@));
                    assert forall|a: int, b: int| 0 <= a < b < ids_view(gids@).len() implies ids_view(gids@)[a] != ids_view(gids@)[b] by {
                        if b == old_gids.len() {
                            assert(ids_view(gids@)[a] == ids_view(old_gids)[a]);
                        }
                    }
                    assert(group_ids(pre) == group_ids(pv.take(q as int)).push(e.0@));
                    assert forall|h: int| 0 <= h < gids@.len() implies list_view((#[trigger] lists@[h])@)
                        == stable_sort(members(pre, gids@[h]@)) by {
                        if h < old_gids.len() {
                            assert(lists@[h] == old_lists[h]);
                            assert(gids@[h] == old_gids[h]);
                            assert(ids_view(old_gids)[h] == old_gids[h]@);
                            assert(gids@[h]@ != e.0@);
                        } else {
                            assert(members(pv.take(q as int), e.0@) =~= Seq::<(nat, int)>::empty()) by {
                                lemma_members_absent(pv.take(q as int), e.0@);
                            }
                            assert(members(pre, gids@[h]@).drop_last() =~= members(
                                pv.take(q as int),
                                gids@[h]@,
                            ));
                            assert(list_view(empty_l) =~= Seq::<(nat, int)>::empty());
                            assert(stable_sort(Seq::<(nat, int)>::empty().push((e.1 as nat, e.2 as int))) == insert_sorted(
                                stable_sort(Seq::<(nat, int)>::empty()),
                                (e.1 as nat, e.2 as int),
                            )) by {
                                assert(Seq::<(nat, int)>::empty().push((e.1 as nat, e.2 as int)).drop_last()
                                    =~= Seq::<(nat, int)>::empty());
                            }
                        }
                    }
                    assert forall|h: int, t: int| 0 <= h < lists@.len() && 0 <= t < lists@[h]@.len() implies (#[trigger] lists@[h]@[t]).1 < bound by {
                        if h < old_lists.len() {
                            assert(lists@[h] == old_lists[h]);
                        }
                    }
                }
            },
        }
        q = q + 1;
    }
    assert(pv.take(q as int) =~= pv);
    (gids, lists)
}

proof fn lemma_members_absent(p: Seq<(Seq<u8>, nat, int)>, id: Seq<u8>)
    requires
        !group_ids(p).contains(id),
    ensures
        members(p, id).len() == 0,
    decreases p.len(),
{
    if p.len() > 0 {
        let g = group_ids(p.drop_last());
        if g.contains(id) {
            let j = choose|j: int| 0 <= j < g.len() && g[j] == id;
            assert(group_ids(p)[j] == id);
        }
        lemma_members_absent(p.drop_last(), id);
        if p.last().0 == id {
            if g.contains(p.last().0) {
                assert(group_ids(p) == g);
            } else {
                assert(group_ids(p) == g.push(p.last().0));
                assert(group_ids(p)[g.len() as int] == id);
            }
        }
    }
}

/// Joins each group's chunks and keeps the non-empty messages.
fn build_messages(
    chunks: &Vec<(String, Vec<u8>)>,
    gids: &Vec<Vec<u8>>,
    lists: &Vec<Vec<(usize, usize)>>,
    Ghost(p): Ghost<Seq<(Seq<u8>, nat, int)>>,
) -> (msgs: Vec<Vec<u8>>)
    requires
        lists@.len() == gids@.len(),
        forall|g: int| 0 <= g < gids@.len() ==> list_view((#[trigger] lists@[g])@) == stable_sort(
            members(p, gids@[g]@),
        ),
        forall|g: int, t: int| 0 <= g < lists@.len() && 0 <= t < lists@[g]@.len() ==> (#[trigger] lists@[g]@[t]).1 < chunks@.len(),
        p == spec_parsed(chunk_views(chunks@)),
    ensures
        payload_seqs(msgs@) == messages_upto(chunk_views(chunks@), ids_view(gids@), gids@.len() as nat),
{
    let ghost cv = chunk_views(chunks@);
    let mut msgs: Vec<Vec<u8>> = Vec::new();
    let mut g: usize = 0;
    while g < gids.len()
        invariant
            g <= gids@.len(),
            lists@.len() == gids@.len(),
            cv == chunk_views(chunks@),
            p == spec_parsed(cv),
            forall|h: int| 0 <= h < gids@.len() ==> list_view((#[trigger] lists@[h])@) == stable_sort(
                members(p, gids@[h]@),
            ),
            forall|h: int, t: int| 0 <= h < lists@.len() && 0 <= t < lists@[h]@.len() ==> (#[trigger] lists@[h]@[t]).1 < chunks@.len(),
            payload_seqs(msgs@) == messages_upto(cv, ids_view(gids@), g as nat),
        decreases gids@.len() - g,
    {
        let l = &lists[g];
        let mut msg: Vec<u8> = Vec::new();
        let mut k: usize = 0;
        assert(list_view(l@).take(0) =~= Seq::<(nat, int)>::empty());
        while k < l.len()
            invariant
                k <= l@.len(),
                cv == chunk_views(chunks@),
                forall|t: int| 0 <= t < l@.len() ==> (#[trigger] l@[t]).1 < chunks@.len(),
                msg@ == concat_data(cv, list_view(l@).take(k as int)),
            decreases l@.len() - k,
        {
            let pos = l[k].1;
            assert(l@[k as int].1 < chunks@.len());
            let ghost before = msg@;
            append_bytes(&mut msg, chunks[pos].1.as_slice());
            proof {
                let t = list_view(l@).take(k + 1);
                assert(t.drop_last() =~= list_view(l@).take(k as int));
                assert(t.last() == (l@[k as int].0 as nat, pos as int));
                assert(cv[pos as int] == (chunks@[pos as int].0@, chunks@[pos as int].1@));
            }
            k = k + 1;
        }
        assert(list_view(l@).take(k as int) =~= list_view(l@));
        proof {
            assert(ids_view(gids@)[g as int] == gids@[g as int]@);
            assert(msg@ == spec_message(cv, ids_view(gids@)[g as int]));
        }
        if msg.len() > 0 {
            let ghost before = msgs@;
            msgs.push(msg);
            assert(payload_seqs(msgs@) =~= payload_seqs(before).push(msg@));
        }
        g = g + 1;
    }
    msgs
}

/// The views of a vector of byte vectors.
pub open spec fn payload_seqs(v: Seq<Vec<u8>>) -> Seq<Seq<u8>> {
    v.map_values(|x: Vec<u8>| x@)
}

/// A transport that sends payloads and gives back the payloads it gathered.
pub trait TransportLayer {
    /// Sends `payload`.
    fn broadcast(&self, payload: &[u8]) -> Result<(), String>;

    /// The payloads gathered so far.
    fn scan(&mut self) -> Vec<Vec<u8>>;
}

/// DNS spore transport: resolvers, record type, and the harvested chunks.
pub struct DnsSpore {
    resolvers: Vec<String>,
    query_type: DnsQueryType,
    received_chunks: Vec<(String, Vec<u8>)>,
    is_harvesting: bool,
}

impl DnsSpore {
    /// The resolvers queried.
    pub closed spec fn resolvers_spec(&self) -> Seq<Seq<char>> {
        self.resolvers@.map_values(|s: String| s@)
    }

    /// The record type queried.
    pub closed spec fn query_type_spec(&self) -> DnsQueryType {
        self.query_type
    }

    /// The harvested chunks, by name.
    pub closed spec fn chunks(&self) -> Seq<(Seq<char>, Seq<u8>)> {
        chunk_views(self.received_chunks@)
    }

    /// Harvesting is on.
    pub closed spec fn harvesting(&self) -> bool {
        self.is_harvesting
    }

    /// The store holds each name once.
    pub closed spec fn wf(&self) -> bool {
        names_distinct(chunk_views(self.received_chunks@))
    }

    /// The public resolvers queried by default.
    pub fn default_resolvers() -> (r: Vec<String>)
        ensures
            r@.len() == 8,
    {
        let mut r: Vec<String> = Vec::new();
        r.push("8.8.8.8".to_string());
        r.push("8.8.4.4".to_string());
        r.push("1.1.1.1".to_string());
        r.push("1.0.0.1".to_string());
        r.push("9.9.9.9".to_string());
        r.push("149.112.112.112".to_string());
        r.push("208.67.222.222".to_string());
        r.push("208.67.220.220".to_string());
        r
    }

    /// The default resolvers, `A` queries, nothing harvested.
    pub fn new() -> (s: Self)
        ensures
            s.wf(),
            s.resolvers_spec().len() == 8,
            s.query_type_spec() == DnsQueryType::A,
            s.chunks().len() == 0,
            !s.harvesting(),
    {
        let resolvers = Self::default_resolvers();
        DnsSpore {
            resolvers,
            query_type: DnsQueryType::A,
            received_chunks: Vec::new(),
            is_harvesting: false,
        }
    }

    /// Queries go to `resolvers`.
    pub fn with_resolvers(resolvers: Vec<String>) -> (s: Self)
        ensures
            s.wf(),
            s.resolvers_spec() == resolvers@.map_values(|x: String| x@),
            s.query_type_spec() == DnsQueryType::A,
            s.chunks().len() == 0,
            !s.harvesting(),
    {
        let mut spore = Self::new();
        spore.resolvers = resolvers;
        spore
    }

    /// Queries use the record type `query_type`.
    pub fn with_query_type(query_type: DnsQueryType) -> (s: Self)
        ensures
            s.wf(),
            s.resolvers_spec().len() == 8,
            s.query_type_spec() == query_type,
            s.chunks().len() == 0,
            !s.harvesting(),
    {
        let mut spore = Self::new();
        spore.query_type = query_type;
        spore
    }

    /// The record type queried.
    pub fn query_type(&self) -> (t: DnsQueryType)
        ensures
            t == self.query_type_spec(),
    {
        self.query_type
    }

    /// The resolvers queried.
    pub fn resolvers(&self) -> (r: &Vec<String>)
        ensures
            r@.map_values(|x: String| x@) == self.resolvers_spec(),
    {
        &self.resolvers
    }

    /// The domain that carries one chunk (see `spec_domain`). The chunk's number
    /// and the chunk count are not written into the name.
    pub fn encode_chunk_to_domain(&self, chunk: &[u8], chunk_idx: usize, total_chunks: usize, chunk_id: &[u8]) -> (domain: Vec<u8>)
        ensures
            domain@ == spec_domain(chunk@, chunk_id@),
    {
        let text = base32_encode(chunk);
        let mut out: Vec<u8> = Vec::new();
        let mut pos: usize = 0;
        assert(text@.skip(0) =~= text@);
        while pos < text.len()
            invariant
                pos <= text@.len(),
                text@ == base32_text(chunk@),
                out@ + spec_labels(text@.skip(pos as int)) == spec_labels(text@),
            decreases text@.len() - pos,
        {
            let take = if text.len() - pos < LABEL_TEXT_LEN {
                text.len() - pos
            } else {
                LABEL_TEXT_LEN
            };
            let ghost before = out@;
            let ghost rest = text@.skip(pos as int);
            out.push(105u8);
            out.push(110u8);
            out.push(101u8);
            out.push(114u8);
            out.push(116u8);
            out.push(105u8);
            out.push(97u8);
            let piece = slice_to_vec(text.as_slice(), pos, pos + take);
            append_bytes(&mut out, piece.as_slice());
            out.push(46u8);
            proof {
                assert(piece@ =~= rest.take(take as int));
                assert(rest.skip(take as int) =~= text@.skip(pos + take));
                assert(out@ =~= before + (label_prefix() + rest.take(take as int) + seq![46u8]));
                assert(spec_labels(rest) == label_prefix() + rest.take(take as int) + seq![46u8]
                    + spec_labels(rest.skip(take as int)));
                assert(out@ + spec_labels(text@.skip(pos + take)) =~= before + spec_labels(rest));
            }
            pos = pos + take;
        }
        assert(text@.skip(pos as int) =~= Seq::<u8>::empty());
        assert(out@ =~= spec_labels(text@));
        append_bytes(&mut out, chunk_id);
        out.push(46u8);
        out.push(115u8);
        out.push(112u8);
        out.push(111u8);
        out.push(114u8);
        out.push(101u8);
        assert(out@ =~= spec_domain(chunk@, chunk_id@));
        out
    }

    /// The domains that carry `payload`, sent at `timestamp`: one per chunk of
    /// `PAYLOAD_CHUNK_SIZE` bytes, all with the chunk id `{timestamp:08x}`. An
    /// empty payload is refused.
    pub fn spore_domains(&self, payload: &[u8], timestamp: u64) -> (r: Result<Vec<Vec<u8>>, String>)
        ensures
            r is Err <==> payload@.len() == 0,
            r matches Err(e) ==> e@ == "Empty payload"@,
            r matches Ok(ds) ==> {
                &&& ds@.len() == chunk_count(payload@.len())
                &&& forall|i: int|
                    0 <= i < ds@.len() ==> (#[trigger] ds@[i])@ == spec_domain(
                        spec_payload_chunk(payload@, i),
                        spec_hex_padded(timestamp as nat, 8),
                    )
            },
    {
        if payload.len() == 0 {
            return Err("Empty payload".to_string());
        }
        let chunk_id = hex_padded8(timestamp);
        let total = payload.len() / PAYLOAD_CHUNK_SIZE + if payload.len() % PAYLOAD_CHUNK_SIZE != 0 {
            1
        } else {
            0
        };
        let ghost n = payload@.len();
        assert(total == chunk_count(n)) by (nonlinear_arith)
            requires
                total == n / 32 + if n % 32 != 0 {
                    1int
                } else {
                    0int
                },
        ;
        let mut out: Vec<Vec<u8>> = Vec::new();
        let mut i: usize = 0;
        let mut start: usize = 0;
        while start < payload.len()
            invariant
                n == payload@.len(),
                total == chunk_count(n),
                chunk_id@ == spec_hex_padded(timestamp as nat, 8),
                start == if i * PAYLOAD_CHUNK_SIZE <= n {
                    i * PAYLOAD_CHUNK_SIZE
                } else {
                    n as int
                },
                start <= n,
                start < n ==> i < total,
                start >= n ==> i == total,
                out@.len() == i,
                forall|t: int|
                    0 <= t < i ==> (#[trigger] out@[t])@ == spec_domain(
                        spec_payload_chunk(payload@, t),
                        spec_hex_padded(timestamp as nat, 8),
                    ),
            decreases n - start,
        {
            let end = if payload.len() - start >= PAYLOAD_CHUNK_SIZE {
                start + PAYLOAD_CHUNK_SIZE
            } else {
                payload.len()
            };
            let chunk = slice_to_vec(payload, start, end);
            assert(chunk@ == spec_payload_chunk(payload@, i as int));
            let d = self.encode_chunk_to_domain(chunk.as_slice(), i, total, chunk_id.as_slice());
            out.push(d);
            proof {
                assert(total * 32 >= n && total * 32 < n + 32) by (nonlinear_arith)
                    requires
                        total == (n + 31) as nat / 32,
                ;
                if end < n {
                    assert(i + 1 < total) by (nonlinear_arith)
                        requires
                            (i + 1) * 32 < n,
                            total * 32 >= n,
                    ;
                } else {
                    assert(i + 1 == total) by (nonlinear_arith)
                        requires
                            i * 32 < n,
                            (i + 1) * 32 >= n,
                            total * 32 >= n,
                            total * 32 < n + 32,
                    ;
                }
            }
            start = end;
            i = i + 1;
        }
        Ok(out)
    }

    /// The outcome of a broadcast from the outcome of each query: success when
    /// any query succeeded.
    pub fn broadcast_outcome(results: &Vec<Result<(), String>>) -> (r: Result<(), String>)
        ensures
            r is Ok <==> exists|i: int| 0 <= i < results@.len() && (#[trigger] results@[i]) is Ok,
            r matches Err(e) ==> e@ == "All DNS queries failed"@,
    {
        let mut i: usize = 0;
        while i < results.len()
            invariant
                i <= results@.len(),
                forall|t: int| 0 <= t < i ==> (#[trigger] results@[t]) is Err,
            decreases results@.len() - i,
        {
            if results[i].is_ok() {
                return Ok(());
            }
            i = i + 1;
        }
        Err("All DNS queries failed".to_string())
    }

    /// Turns harvesting on.
    pub fn start_harvesting(&mut self) -> (r: Result<(), String>)
        ensures
            r is Ok,
            final(self).harvesting(),
            final(self).chunks() == old(self).chunks(),
            final(self).wf() == old(self).wf(),
    {
        self.is_harvesting = true;
        Ok(())
    }

    /// Turns harvesting off.
    pub fn stop_harvesting(&mut self)
        ensures
            !final(self).harvesting(),
            final(self).chunks() == old(self).chunks(),
            final(self).wf() == old(self).wf(),
    {
        self.is_harvesting = false;
    }

    /// Harvesting is on.
    pub fn is_harvesting(&self) -> (b: bool)
        ensures
            b == self.harvesting(),
    {
        self.is_harvesting
    }

    /// Messages assembled from harvested chunks (see `spec_messages`).
    pub fn assemble_messages(chunks: &Vec<(String, Vec<u8>)>) -> (msgs: Vec<Vec<u8>>)
        ensures
            payload_seqs(msgs@) == spec_messages(chunk_views(chunks@)),
    {
        let p = parse_entries(chunks);
        let r = group_entries(&p, chunks.len());
        let gids = r.0;
        let lists = r.1;
        build_messages(chunks, &gids, &lists, Ghost(parsed_view(p@)))
    }

    /// Keeps a harvested chunk under `name`, unless a chunk with that name is
    /// kept already.
    pub fn store_chunk(&mut self, name: String, data: Vec<u8>)
        requires
            old(self).wf(),
        ensures
            final(self).wf(),
            final(self).chunks() == spec_merge(old(self).chunks(), seq![(name@, data@)]),
            final(self).harvesting() == old(self).harvesting(),
    {
        let mut incoming: Vec<(String, Vec<u8>)> = Vec::new();
        incoming.push((name, data));
        assert(chunk_views(incoming@) =~= seq![(name@, data@)]);
        merge_chunks(&mut self.received_chunks, incoming);
    }

    /// The messages assembled from everything harvested; the store is emptied.
    pub fn get_harvested(&mut self) -> (msgs: Vec<Vec<u8>>)
        ensures
            payload_seqs(msgs@) == spec_messages(old(self).chunks()),
            final(self).chunks().len() == 0,
            final(self).wf(),
            final(self).harvesting() == old(self).harvesting(),
    {
        let result = Self::assemble_messages(&self.received_chunks);
        self.received_chunks = Vec::new();
        assert(chunk_views(self.received_chunks@) =~= Seq::<(Seq<char>, Seq<u8>)>::empty());
        result
    }

    /// Chunks a passive-DNS service reports for `resolver` over the last
    /// `hours_back` hours. No service is queried yet, so this reports none.
    pub fn query_passive_dns(&self, resolver: &str, hours_back: u64) -> (r: Result<Vec<(String, Vec<u8>)>, String>)
        ensures
            r matches Ok(v) && v@.len() == 0,
    {
        Ok(Vec::new())
    }

    /// One harvesting round: the chunks reported for every resolver are kept,
    /// the first chunk for a name winning.
    pub fn harvest_round(&mut self)
        requires
            old(self).wf(),
        ensures
            final(self).wf(),
            final(self).chunks() == old(self).chunks(),
            final(self).harvesting() == old(self).harvesting(),
    {
        let mut i: usize = 0;
        while i < self.resolvers.len()
            invariant
                i <= self.resolvers@.len(),
                self.wf(),
                self.chunks() == old(self).chunks(),
                self.harvesting() == old(self).harvesting(),
            decreases self.resolvers@.len() - i,
        {
            let r = self.query_passive_dns(self.resolvers[i].as_str(), 1);
            match r {
                Ok(found) => {
                    merge_chunks(&mut self.received_chunks, found);
                    assert(chunk_views(found@) =~= Seq::<(Seq<char>, Seq<u8>)>::empty());
                },
                Err(_) => {},
            }
            i = i + 1;
        }
    }

    /// Searches the resolvers' history for spores and assembles what is found.
    /// No service is queried yet (see `query_passive_dns`), so nothing is found.
    pub fn search_historical(&self, hours_back: u64) -> (msgs: Vec<Vec<u8>>)
        ensures
            msgs@.len() == 0,
    {
        let mut all: Vec<(String, Vec<u8>)> = Vec::new();
        let mut i: usize = 0;
        assert(names_distinct(chunk_views(all@)));
        while i < self.resolvers.len()
            invariant
                i <= self.resolvers@.len(),
                all@.len() == 0,
                names_distinct(chunk_views(all@)),
            decreases self.resolvers@.len() - i,
        {
            match self.query_passive_dns(self.resolvers[i].as_str(), hours_back) {
                Ok(found) => {
                    merge_chunks(&mut all, found);
                    assert(chunk_views(found@) =~= Seq::<(Seq<char>, Seq<u8>)>::empty());
                },
                Err(_) => {},
            }
            i = i + 1;
        }
        let msgs = Self::assemble_messages(&all);
        proof {
            assert(chunk_views(all@) =~= Seq::<(Seq<char>, Seq<u8>)>::empty());
            assert(spec_parsed(chunk_views(all@)).len() == 0);
            assert(group_ids(spec_parsed(chunk_views(all@))).len() == 0);
        }
        msgs
    }

    /// Checks the configuration; nothing here can fail.
    pub fn init(&mut self) -> (r: Result<(), String>)
        ensures
            r is Ok,
            final(self).chunks() == old(self).chunks(),
            final(self).harvesting() == old(self).harvesting(),
            final(self).wf() == old(self).wf(),
    {
        Ok(())
    }
}

/// Appends to `store` the incoming entries whose name it does not hold yet.
fn merge_chunks(store: &mut Vec<(String, Vec<u8>)>, incoming: Vec<(String, Vec<u8>)>)
    requires
        names_distinct(chunk_views(old(store)@)),
    ensures
        names_distinct(chunk_views(final(store)@)),
        chunk_views(final(store)@) == spec_merge(chunk_views(old(store)@), chunk_views(incoming@)),
{
    let ghost start = chunk_views(store@);
    let ghost inc = chunk_views(incoming@);
    let n_in = incoming.len();
    let mut rest = incoming;
    let mut i: usize = 0;
    assert(inc.take(0) =~= Seq::<(Seq<char>, Seq<u8>)>::empty());
    assert(chunk_views(rest@) =~= inc.skip(0));
    while rest.len() > 0
        invariant
            i <= inc.len(),
            inc.len() == n_in,
            chunk_views(rest@) == inc.skip(i as int),
            chunk_views(store@) == spec_merge(start, inc.take(i as int)),
            names_distinct(chunk_views(store@)),
        decreases rest@.len(),
    {
        let ghost acc = chunk_views(store@);
        let ghost rest_before = rest@;
        let e = rest.remove(0);
        proof {
            assert(chunk_views(rest_before).len() == rest_before.len());
            assert(i < inc.len());
            assert(chunk_views(rest_before)[0] == (e.0@, e.1@));
            assert(rest@ =~= rest_before.remove(0));
            assert forall|k: int| 0 <= k < rest@.len() implies chunk_views(rest@)[k] == inc.skip(i + 1)[k] by {
                assert(chunk_views(rest@)[k] == chunk_views(rest_before)[k + 1]);
            }
            assert(chunk_views(rest@) =~= inc.skip(i + 1));
        }
        let mut exists = false;
        let mut j: usize = 0;
        while j < store.len()
            invariant
                j <= store@.len(),
                chunk_views(store@) == acc,
                !exists ==> forall|t: int| 0 <= t < j ==> (#[trigger] acc[t]).0 != e.0@,
                exists ==> exists|t: int| 0 <= t < acc.len() && (#[trigger] acc[t]).0 == e.0@,
            decreases store@.len() - j,
        {
            if store[j].0 == e.0 {
                exists = true;
                assert(acc[j as int] == (store@[j as int].0@, store@[j as int].1@));
            } else {
                assert(acc[j as int] == (store@[j as int].0@, store@[j as int].1@));
            }
            j = j + 1;
        }
        proof {
            let pre = inc.take(i + 1);
            assert(pre.drop_last() =~= inc.take(i as int));
            assert(pre.last() == (e.0@, e.1@));
        }
        if !exists {
            let ghost before = store@;
            store.push(e);
            proof {
                assert(chunk_views(store@) =~= acc.push((e.0@, e.1@)));
                let v = chunk_views(store@);
                assert forall|a: int, b: int| 0 <= a < b < v.len() implies #[trigger] v[a].0
                    != #[trigger] v[b].0 by {
                    if b < acc.len() {
                        assert(v[a] == acc[a] && v[b] == acc[b]);
                    } else {
                        assert(v[a] == acc[a]);
                    }
                }
            }
        }
        i = i + 1;
    }
    assert(inc.take(i as int) =~= inc);
}

/// `s` is ordered by number, smallest first.
pub open spec fn sorted_by_number(s: Seq<(nat, int)>) -> bool {
    forall|i: int, j: int| 0 <= i < j < s.len() ==> #[trigger] s[i].0 <= #[trigger] s[j].0
}

proof fn lemma_insert_pos_sorted(s: Seq<(nat, int)>, key: nat)
    requires
        sorted_by_number(s),
    ensures
        0 <= insert_pos(s, key) <= s.len(),
        forall|i: int| 0 <= i < insert_pos(s, key) ==> #[trigger] s[i].0 <= key,
        forall|i: int| insert_pos(s, key) <= i < s.len() ==> #[trigger] s[i].0 > key,
    decreases s.len(),
{
    if s.len() > 0 {
        let t = s.drop_last();
        assert(sorted_by_number(t)) by {
            assert forall|i: int, j: int| 0 <= i < j < t.len() implies #[trigger] t[i].0 <= #[trigger] t[j].0 by {
                assert(s[i].0 <= s[j].0);
            }
        }
        lemma_insert_pos_sorted(t, key);
        if s.last().0 <= key {
            assert forall|i: int| 0 <= i < s.len() implies #[trigger] s[i].0 <= key by {
                if i < s.len() - 1 {
                    assert(s[i].0 <= s[s.len() - 1].0);
                }
            }
        } else {
            assert forall|i: int| 0 <= i < insert_pos(s, key) implies #[trigger] s[i].0 <= key by {
                assert(t[i] == s[i]);
            }
            assert forall|i: int| insert_pos(s, key) <= i < s.len() implies #[trigger] s[i].0 > key by {
                if i < s.len() - 1 {
                    assert(t[i] == s[i]);
                }
            }
        }
    }
}

/// Ordering the chunks of a message by number keeps every chunk, each as often as
/// before, and puts them in increasing order of number, so a message is its
/// chunks joined from number 0 up.
pub proof fn lemma_stable_sort(s: Seq<(nat, int)>)
    ensures
        stable_sort(s).len() == s.len(),
        stable_sort(s).to_multiset() == s.to_multiset(),
        sorted_by_number(stable_sort(s)),
    decreases s.len(),
{
    if s.len() > 0 {
        let t = stable_sort(s.drop_last());
        let x = s.last();
        lemma_stable_sort(s.drop_last());
        lemma_insert_pos_sorted(t, x.0);
        let k = insert_pos(t, x.0);
        let r = stable_sort(s);
        assert(r == t.take(k) + seq![x] + t.skip(k));
        assert(r =~= t.insert(k, x));
        vstd::seq_lib::to_multiset_insert(t, k, x);
        assert(s =~= s.drop_last().push(x));
        vstd::seq_lib::to_multiset_build(s.drop_last(), x);
        assert(r.to_multiset() =~= s.to_multiset());
        assert forall|i: int, j: int| 0 <= i < j < r.len() implies #[trigger] r[i].0 <= #[trigger] r[j].0 by {
            if j < k {
                assert(r[i] == t[i] && r[j] == t[j]);
            } else if j == k {
                assert(r[i] == t[i]);
            } else if i < k {
                assert(r[i] == t[i] && r[j] == t[j - 1]);
                assert(t[i].0 <= x.0);
            } else if i == k {
                assert(r[j] == t[j - 1]);
            } else {
                assert(r[i] == t[i - 1] && r[j] == t[j - 1]);
            }
        }
    }
}

proof fn lemma_dash_at(s: Seq<u8>, from: int, j: int)
    requires
        0 <= from <= j < s.len(),
        s[j] == 45u8,
        forall|i: int| from <= i < j ==> #[trigger] s[i] != 45u8,
    ensures
        dash_from(s, from) == j,
    decreases j - from,
{
    if from < j {
        lemma_dash_at(s, from + 1, j);
    }
}

/// A harvested name `id-idx-rest`, whose id holds no dash and whose number is
/// written in hexadecimal (zero-padded to any width), gives back the id and the
/// number.
pub proof fn lemma_key_fields_round_trip(id: Seq<u8>, idx: nat, width: nat, rest: Seq<u8>)
    requires
        forall|i: int| 0 <= i < id.len() ==> #[trigger] id[i] != 45u8,
        idx <= usize::MAX,
    ensures
        spec_key_fields(id + seq![45u8] + spec_hex_padded(idx, width) + seq![45u8] + rest) == Some((id, idx)),
{
    let h = spec_hex_padded(idx, width);
    let k = id + seq![45u8] + h + seq![45u8] + rest;
    lemma_hex_padded_digits(idx, width);
    lemma_hex_padded_round_trip(idx, width);
    let a = id.len() as int;
    let b = a + 1 + h.len();
    assert forall|i: int| 0 <= i < a implies #[trigger] k[i] != 45u8 by {
        assert(k[i] == id[i]);
    }
    lemma_dash_at(k, 0, a);
    assert forall|i: int| a + 1 <= i < b implies #[trigger] k[i] != 45u8 by {
        assert(k[i] == h[i - a - 1]);
        assert(hex_value(h[i - a - 1]) is Some);
    }
    lemma_dash_at(k, a + 1, b);
    assert(k.subrange(a + 1, b) =~= h);
    assert(k.take(a) =~= id);
}

} // verus!
