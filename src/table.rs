use vstd::prelude::*;
use crate::config::{ExtractedInfo, InfoView, infos_view, tags_view};
use crate::ipv4::{Ipv4, ipv4_of, parse_ipv4};
use crate::text::{normalize, normalize_name, bytes_eq, copy_bytes};

verus! {

/// One name the server answers for.
#[derive(Debug)]
pub struct TableEntry {
    pub key: Vec<u8>,
    pub ip: Ipv4,
    pub port: u16,
}

/// The map from lookup key to address and port that the server answers
/// from. Keys are unique.
#[derive(Debug)]
pub struct RecordTable {
    entries: Vec<TableEntry>,
}

/// The map that a list of entries stands for; a later entry wins.
pub open spec fn entries_map(s: Seq<TableEntry>) -> Map<Seq<u8>, (Ipv4, u16)>
    decreases s.len(),
{
    if s.len() == 0 {
        Map::empty()
    } else {
        entries_map(s.drop_last()).insert(s.last().key@, (s.last().ip, s.last().port))
    }
}

pub open spec fn keys_unique(s: Seq<TableEntry>) -> bool {
    forall|i: int, j: int| 0 <= i < j < s.len() ==> s[i].key@ != s[j].key@
}

proof fn lemma_entries_map(s: Seq<TableEntry>)
    requires
        keys_unique(s),
    ensures
        forall|k: Seq<u8>|
            entries_map(s).contains_key(k) <==> exists|i: int| 0 <= i < s.len() && s[i].key@ == k,
        forall|i: int|
            0 <= i < s.len() ==> entries_map(s)[#[trigger] s[i].key@] == (s[i].ip, s[i].port),
    decreases s.len(),
{
    if s.len() > 0 {
        let p = s.drop_last();
        assert forall|i: int, j: int| 0 <= i < j < p.len() implies p[i].key@ != p[j].key@ by {
            assert(p[i] == s[i] && p[j] == s[j]);
        }
        lemma_entries_map(p);
        assert forall|k: Seq<u8>|
            entries_map(s).contains_key(k) <==> exists|i: int| 0 <= i < s.len() && s[i].key@ == k by {
            if entries_map(s).contains_key(k) {
                if k == s.last().key@ {
                    assert(s[s.len() - 1].key@ == k);
                } else {
                    assert(entries_map(p).contains_key(k));
                    let i = choose|i: int| 0 <= i < p.len() && p[i].key@ == k;
                    assert(s[i] == p[i]);
                }
            }
            if exists|i: int| 0 <= i < s.len() && s[i].key@ == k {
                let i = choose|i: int| 0 <= i < s.len() && s[i].key@ == k;
                if i < p.len() {
                    assert(p[i] == s[i]);
                }
            }
        }
        assert forall|i: int| 0 <= i < s.len() implies entries_map(s)[#[trigger] s[i].key@] == (
            s[i].ip,
            s[i].port,
        ) by {
            if i < p.len() {
                assert(p[i] == s[i]);
            }
        }
    }
}

/// What `tags` add to `m` when each is entered with value `v`, in order.
pub open spec fn insert_tags(m: Map<Seq<u8>, (Ipv4, u16)>, tags: Seq<Seq<u8>>, v: (Ipv4, u16)) -> Map<
    Seq<u8>,
    (Ipv4, u16),
>
    decreases tags.len(),
{
    if tags.len() == 0 {
        m
    } else {
        insert_tags(m, tags.drop_last(), v).insert(normalize(tags.last()), v)
    }
}

/// What one extracted entry adds to the table: nothing when its IP is not
/// dotted-quad text, else each of its tags, with the port narrowed to 16 bits.
pub open spec fn add_spec(m: Map<Seq<u8>, (Ipv4, u16)>, info: InfoView) -> Map<Seq<u8>, (Ipv4, u16)> {
    match ipv4_of(info.ip) {
        Some(ip) => insert_tags(m, info.tags, (ip, info.port as u16)),
        None => m,
    }
}

/// The table built from a list of extracted entries, in order.
pub open spec fn table_of(infos: Seq<InfoView>) -> Map<Seq<u8>, (Ipv4, u16)>
    decreases infos.len(),
{
    if infos.len() == 0 {
        Map::empty()
    } else {
        add_spec(table_of(infos.drop_last()), infos.last())
    }
}

impl View for RecordTable {
    type V = Map<Seq<u8>, (Ipv4, u16)>;

    closed spec fn view(&self) -> Map<Seq<u8>, (Ipv4, u16)> {
        entries_map(self.entries@)
    }
}

impl RecordTable {
    /// Keys are unique.
    pub closed spec fn wf(&self) -> bool {
        keys_unique(self.entries@)
    }

    /// An empty table.
    pub fn new() -> (r: RecordTable)
        ensures
            r.wf(),
            r@ == Map::<Seq<u8>, (Ipv4, u16)>::empty(),
    {
        RecordTable { entries: Vec::new() }
    }

    /// Position of `key` among the entries, if present.
    fn find(&self, key: &[u8]) -> (r: Option<usize>)
        ensures
            match r {
                Some(i) => i < self.entries@.len() && self.entries@[i as int].key@ == key@,
                None => forall|i: int| 0 <= i < self.entries@.len() ==> self.entries@[i].key@ != key@,
            },
    {
        let mut i: usize = 0;
        while i < self.entries.len()
            invariant
                i <= self.entries@.len(),
                forall|j: int| 0 <= j < i ==> self.entries@[j].key@ != key@,
            decreases self.entries@.len() - i,
        {
            if bytes_eq(self.entries[i].key.as_slice(), key) {
                return Some(i);
            }
            i = i + 1;
        }
        None
    }

    /// Enters `key` with `ip` and `port`, replacing what it had; says whether
    /// it was already there.
    pub fn insert(&mut self, key: Vec<u8>, ip: Ipv4, port: u16) -> (replaced: bool)
        requires
            old(self).wf(),
        ensures
            final(self).wf(),
            final(self)@ == old(self)@.insert(key@, (ip, port)),
            replaced == old(self)@.contains_key(key@),
    {
        proof {
            lemma_entries_map(self.entries@);
        }
        let ghost old_entries = self.entries@;
        match self.find(key.as_slice()) {
            Some(i) => {
                let ghost k = key@;
                self.entries.set(i, TableEntry { key, ip, port });
                proof {
                    let s = self.entries@;
                    assert(keys_unique(s)) by {
                        assert forall|a: int, b: int| 0 <= a < b < s.len() implies s[a].key@
                            != s[b].key@ by {
                            assert(s[a].key@ == old_entries[a].key@);
                            assert(s[b].key@ == old_entries[b].key@);
                        }
                    }
                    lemma_entries_map(s);
                    let m0 = entries_map(old_entries);
                    let m1 = entries_map(s);
                    assert forall|q: Seq<u8>| m1.contains_key(q) <==> m0.insert(k, (ip, port)).contains_key(q) by {
                        if m1.contains_key(q) {
                            let j = choose|j: int| 0 <= j < s.len() && s[j].key@ == q;
                            assert(old_entries[j].key@ == q);
                        }
                        if m0.contains_key(q) {
                            let j = choose|j: int| 0 <= j < old_entries.len() && old_entries[j].key@ == q;
                            assert(s[j].key@ == q);
                        }
                    }
                    assert forall|q: Seq<u8>| #[trigger] m1.contains_key(q) implies m1[q] == m0.insert(
                        k,
                        (ip, port),
                    )[q] by {
                        let j = choose|j: int| 0 <= j < s.len() && s[j].key@ == q;
                        if j != i {
                            assert(s[j] == old_entries[j]);
                        }
                    }
                    assert(m1 =~= m0.insert(k, (ip, port)));
                }
                true
            },
            None => {
                self.entries.push(TableEntry { key, ip, port });
                proof {
                    let s = self.entries@;
                    assert(s.drop_last() =~= old_entries);
                    assert forall|a: int, b: int| 0 <= a < b < s.len() implies s[a].key@ != s[b].key@ by {
                        if b < old_entries.len() {
                            assert(s[a] == old_entries[a] && s[b] == old_entries[b]);
                        } else {
                            assert(s[a] == old_entries[a]);
                        }
                    }
                }
                false
            },
        }
    }

    /// Enters every tag of `info` under its normalised key, when its IP is
    /// dotted-quad text; the port is narrowed to 16 bits. Gives `None`, and
    /// leaves the table as it was, when the IP does not parse; else, for each
    /// tag in order, whether its key was already present.
    pub fn add_info(&mut self, info: &ExtractedInfo) -> (r: Option<Vec<bool>>)
        requires
            old(self).wf(),
        ensures
            final(self).wf(),
            final(self)@ == add_spec(old(self)@, info@),
            r is None <==> ipv4_of(info.ip@) is None,
            r matches Some(flags) ==> flags@.len() == info.tags@.len() && forall|i: int|
                0 <= i < flags@.len() ==> #[trigger] flags@[i] == insert_tags(
                    old(self)@,
                    tags_view(info.tags@).take(i),
                    (ipv4_of(info.ip@)->Some_0, info.port as u16),
                ).contains_key(normalize(info.tags@[i]@)),
    {
        let ip = match parse_ipv4(info.ip.as_slice()) {
            Some(ip) => ip,
            None => {
                return None;
            },
        };
        let port = info.port as u16;
        let ghost tv = tags_view(info.tags@);
        let ghost m0 = self@;
        let mut flags: Vec<bool> = Vec::new();
        let mut i: usize = 0;
        while i < info.tags.len()
            invariant
                self.wf(),
                tv == tags_view(info.tags@),
                i <= info.tags@.len(),
                self@ == insert_tags(m0, tv.take(i as int), (ip, port)),
                flags@.len() == i,
                forall|j: int|
                    0 <= j < i ==> #[trigger] flags@[j] == insert_tags(m0, tv.take(j), (ip, port)).contains_key(
                        normalize(info.tags@[j]@),
                    ),
            decreases info.tags@.len() - i,
        {
            let key = normalize_name(info.tags[i].as_slice());
            let replaced = self.insert(key, ip, port);
            flags.push(replaced);
            proof {
                assert(tv.take(i + 1).drop_last() =~= tv.take(i as int));
                assert(tv[i as int] == info.tags@[i as int]@);
            }
            i = i + 1;
        }
        assert(tv.take(i as int) =~= tv);
        Some(flags)
    }

    /// The address and port that `key` maps to.
    pub fn get(&self, key: &[u8]) -> (r: Option<(Ipv4, u16)>)
        requires
            self.wf(),
        ensures
            r == (if self@.contains_key(key@) {
                Some(self@[key@])
            } else {
                None
            }),
    {
        proof {
            lemma_entries_map(self.entries@);
        }
        match self.find(key) {
            Some(i) => Some((self.entries[i].ip, self.entries[i].port)),
            None => None,
        }
    }

    /// The keys of the table, each once.
    pub fn keys(&self) -> (r: Vec<Vec<u8>>)
        requires
            self.wf(),
        ensures
            forall|k: Seq<u8>| self@.contains_key(k) <==> tags_view(r@).contains(k),
            tags_view(r@).no_duplicates(),
    {
        proof {
            lemma_entries_map(self.entries@);
        }
        let mut out: Vec<Vec<u8>> = Vec::new();
        let mut i: usize = 0;
        while i < self.entries.len()
            invariant
                self.wf(),
                i <= self.entries@.len(),
                out@.len() == i,
                forall|j: int| 0 <= j < i ==> out@[j]@ == self.entries@[j].key@,
            decreases self.entries@.len() - i,
        {
            out.push(copy_bytes(self.entries[i].key.as_slice()));
            i = i + 1;
        }
        proof {
            let tv = tags_view(out@);
            assert forall|k: Seq<u8>| self@.contains_key(k) <==> tv.contains(k) by {
                if self@.contains_key(k) {
                    let j = choose|j: int| 0 <= j < self.entries@.len() && self.entries@[j].key@ == k;
                    assert(tv[j] == k);
                }
                if tv.contains(k) {
                    let j = choose|j: int| 0 <= j < tv.len() && tv[j] == k;
                    assert(self.entries@[j].key@ == k);
                }
            }
        }
        out
    }
}

/// Builds the table from the extracted entries, in order: entries whose IP
/// is not dotted-quad text are left out, and a later entry wins a key.
pub fn build_record_table(infos: &[ExtractedInfo]) -> (r: RecordTable)
    ensures
        r.wf(),
        r@ == table_of(infos_view(infos@)),
{
    let mut table = RecordTable::new();
    let ghost iv = infos_view(infos@);
    let mut i: usize = 0;
    while i < infos.len()
        invariant
            table.wf(),
            iv == infos_view(infos@),
            i <= infos@.len(),
            table@ == table_of(iv.take(i as int)),
        decreases infos@.len() - i,
    {
        let _ = table.add_info(&infos[i]);
        proof {
            assert(iv.take(i + 1).drop_last() =~= iv.take(i as int));
            assert(iv[i as int] == infos@[i as int]@);
        }
        i = i + 1;
    }
    assert(iv.take(i as int) =~= iv);
    table
}

proof fn lemma_insert_tags_keys(m: Map<Seq<u8>, (Ipv4, u16)>, tags: Seq<Seq<u8>>, v: (Ipv4, u16), k: Seq<u8>)
    requires
        insert_tags(m, tags, v).contains_key(k),
    ensures
        m.contains_key(k) || exists|j: int| 0 <= j < tags.len() && k == normalize(tags[j]),
    decreases tags.len(),
{
    if tags.len() > 0 && k != normalize(tags.last()) {
        lemma_insert_tags_keys(m, tags.drop_last(), v, k);
        if !m.contains_key(k) {
            let j = choose|j: int| 0 <= j < tags.len() - 1 && k == normalize(tags.drop_last()[j]);
            assert(tags.drop_last()[j] == tags[j]);
        }
    } else if tags.len() > 0 {
        assert(k == normalize(tags[tags.len() - 1]));
    }
}

/// Every key of a table built from extracted entries is the normalised form
/// (trailing dot dropped, ASCII lowered) of a tag of some entry whose IP
/// parsed.
pub proof fn lemma_table_keys_from_tags(infos: Seq<InfoView>, k: Seq<u8>)
    requires
        table_of(infos).contains_key(k),
    ensures
        exists|i: int, j: int|
            0 <= i < infos.len() && ipv4_of(infos[i].ip) is Some && 0 <= j < infos[i].tags.len() && k
                == normalize(#[trigger] infos[i].tags[j]),
    decreases infos.len(),
{
    let p = infos.drop_last();
    let last = infos.last();
    let m = table_of(p);
    if m.contains_key(k) {
        lemma_table_keys_from_tags(p, k);
        let (i, j) = choose|i: int, j: int|
            0 <= i < p.len() && ipv4_of(p[i].ip) is Some && 0 <= j < p[i].tags.len() && k == normalize(
                #[trigger] p[i].tags[j],
            );
        assert(infos[i] == p[i]);
    } else {
        match ipv4_of(last.ip) {
            Some(ip) => {
                lemma_insert_tags_keys(m, last.tags, (ip, last.port as u16), k);
                let j = choose|j: int| 0 <= j < last.tags.len() && k == normalize(last.tags[j]);
                assert(infos[infos.len() - 1].tags[j] == last.tags[j]);
            },
            None => {},
        }
    }
}

} // verus!
