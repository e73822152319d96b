use vstd::prelude::*;
use crate::text::{is_utf8, utf8_valid};

verus! {

/// Why a name in a packet could not be read.
#[derive(Debug, Clone, Copy, PartialEq, Eq, Structural)]
pub enum NameError {
    /// The packet ended inside the name.
    Truncated,
    /// A compression pointer, which this decoder does not follow.
    CompressionPointer,
    /// A label length over 63.
    LabelTooLong,
    /// A label that is not valid UTF-8.
    InvalidUtf8,
}

/// Index of the first dot in `s`, or its length when it has none.
pub open spec fn dot_index(s: Seq<u8>) -> nat
    decreases s.len(),
{
    if s.len() == 0 {
        0
    } else if s[0] == 46 {
        0
    } else {
        1 + dot_index(s.drop_first())
    }
}

/// What follows the first label of `s` and its dot.
pub open spec fn after_label(s: Seq<u8>) -> Seq<u8> {
    if dot_index(s) < s.len() {
        s.skip(dot_index(s) + 1int)
    } else {
        seq![]
    }
}

proof fn lemma_dot_index(s: Seq<u8>)
    ensures
        dot_index(s) <= s.len(),
        forall|k: int| 0 <= k < dot_index(s) ==> s[k] != 46,
        dot_index(s) < s.len() ==> s[dot_index(s) as int] == 46,
        s.len() > 0 ==> after_label(s).len() < s.len(),
    decreases s.len(),
{
    if s.len() > 0 && s[0] != 46 {
        lemma_dot_index(s.drop_first());
        assert forall|k: int| 0 <= k < dot_index(s) implies s[k] != 46 by {
            if k > 0 {
                assert(s[k] == s.drop_first()[k - 1]);
            }
        }
    }
}

/// The labels of the dotted name `s` as length-prefixed byte strings, with
/// empty labels (from `a..b` or a trailing dot) left out.
pub open spec fn enc_labels(s: Seq<u8>) -> Seq<u8>
    decreases s.len(),
    via enc_labels_decreases
{
    if s.len() == 0 {
        seq![]
    } else {
        let i = dot_index(s);
        let head = if i == 0 {
            seq![]
        } else {
            seq![i as u8] + s.take(i as int)
        };
        head + enc_labels(after_label(s))
    }
}

#[via_fn]
proof fn enc_labels_decreases(s: Seq<u8>) {
    lemma_dot_index(s);
}

/// Every label of the dotted name `s` is at most 63 bytes long.
pub open spec fn labels_fit(s: Seq<u8>) -> bool
    decreases s.len(),
    via labels_fit_decreases
{
    if s.len() == 0 {
        true
    } else {
        dot_index(s) <= 63 && labels_fit(after_label(s))
    }
}

#[via_fn]
proof fn labels_fit_decreases(s: Seq<u8>) {
    lemma_dot_index(s);
}

/// Wire form of a dotted name: its labels, then a zero byte. The root (`.`
/// or the empty name) is the zero byte alone.
pub open spec fn encode_name(s: Seq<u8>) -> Seq<u8> {
    enc_labels(s) + seq![0u8]
}

proof fn lemma_dot_index_at(s: Seq<u8>, m: nat)
    requires
        m <= s.len(),
        forall|k: int| 0 <= k < m ==> s[k] != 46,
        m == s.len() || s[m as int] == 46,
    ensures
        dot_index(s) == m,
    decreases m,
{
    if m > 0 {
        lemma_dot_index_at(s.drop_first(), (m - 1) as nat);
    }
}

/// Encodes a dotted name in the label-sequence wire form.
pub fn format_name_for_dns_packet(name: &[u8]) -> (r: Vec<u8>)
    requires
        labels_fit(name@),
    ensures
        r@ == encode_name(name@),
{
    let n = name.len();
    let mut out: Vec<u8> = Vec::new();
    if n == 0 || (n == 1 && name[0] == 46) {
        out.push(0);
        proof {
            if n == 1 {
                let t = name@;
                assert(dot_index(t) == 0);
                assert(after_label(t) =~= seq![]);
                assert(enc_labels(seq![]) =~= seq![]);
            }
            assert(out@ =~= encode_name(name@));
        }
        return out;
    }
    let mut pos: usize = 0;
    assert(name@.skip(0) =~= name@);
    while pos < n
        invariant
            n == name@.len(),
            pos <= n,
            out@ + enc_labels(name@.skip(pos as int)) == enc_labels(name@),
            labels_fit(name@.skip(pos as int)),
        decreases n - pos,
    {
        let ghost t = name@.skip(pos as int);
        let mut j: usize = pos;
        while j < n && name[j] != 46
            invariant
                pos <= j <= n,
                n == name@.len(),
                forall|k: int| pos <= k < j ==> name@[k] != 46,
            decreases n - j,
        {
            j = j + 1;
        }
        proof {
            lemma_dot_index_at(t, (j - pos) as nat);
            lemma_dot_index(t);
        }
        let ghost before = out@;
        if j > pos {
            out.push((j - pos) as u8);
            let mut k: usize = pos;
            while k < j
                invariant
                    pos <= k <= j <= n,
                    n == name@.len(),
                    out@ == before + seq![(j - pos) as u8] + name@.subrange(pos as int, k as int),
                decreases j - k,
            {
                out.push(name[k]);
                k = k + 1;
                assert(out@ =~= before + seq![(j - pos) as u8] + name@.subrange(pos as int, k as int));
            }
            assert(name@.subrange(pos as int, j as int) =~= t.take((j - pos) as int));
        }
        let next: usize = if j < n {
            j + 1
        } else {
            n
        };
        proof {
            if j < n {
                assert(after_label(t) =~= name@.skip(next as int));
            } else {
                assert(after_label(t) =~= seq![]);
                assert(name@.skip(next as int) =~= seq![]);
            }
            assert(out@ + enc_labels(name@.skip(next as int)) =~= before + enc_labels(t));
        }
        pos = next;
    }
    proof {
        assert(name@.skip(pos as int) =~= seq![]);
        assert(enc_labels(seq![]) =~= seq![]);
        assert(out@ =~= enc_labels(name@));
    }
    out.push(0);
    out
}

/// The labels of the name that starts at `pos` in packet `p`, after those in
/// `acc`, and the position just past its terminating zero byte.
pub open spec fn labels_from(p: Seq<u8>, pos: nat, acc: Seq<Seq<u8>>) -> Result<
    (Seq<Seq<u8>>, nat),
    NameError,
>
    decreases p.len() - pos,
{
    if pos >= p.len() {
        Err(NameError::Truncated)
    } else {
        let l = p[pos as int];
        if l >= 0xC0 {
            Err(NameError::CompressionPointer)
        } else if l == 0 {
            Ok((acc, pos + 1))
        } else if l > 63 {
            Err(NameError::LabelTooLong)
        } else if pos + 1 + l > p.len() {
            Err(NameError::Truncated)
        } else {
            let label = p.subrange(pos + 1int, pos + 1 + l);
            if !is_utf8(label) {
                Err(NameError::InvalidUtf8)
            } else {
                labels_from(p, (pos + 1 + l) as nat, acc.push(label))
            }
        }
    }
}

/// Labels joined by dots.
pub open spec fn join_labels(ls: Seq<Seq<u8>>) -> Seq<u8>
    decreases ls.len(),
{
    if ls.len() == 0 {
        seq![]
    } else if ls.len() == 1 {
        ls[0]
    } else {
        join_labels(ls.drop_last()) + seq![46u8] + ls.last()
    }
}

/// Dotted text of a label list; the root, with no labels, is `.`.
pub open spec fn dotted(ls: Seq<Seq<u8>>) -> Seq<u8> {
    if ls.len() == 0 {
        seq![46u8]
    } else {
        join_labels(ls)
    }
}

/// The dotted name at `start` in packet `p` and the bytes it takes there.
pub open spec fn qname_spec(p: Seq<u8>, start: nat) -> Result<(Seq<u8>, nat), NameError> {
    match labels_from(p, start, seq![]) {
        Ok((ls, end)) => Ok((dotted(ls), (end - start) as nat)),
        Err(e) => Err(e),
    }
}

proof fn lemma_qname_err(p: Seq<u8>, start: nat, pos: nat, acc: Seq<Seq<u8>>, e: NameError)
    requires
        labels_from(p, start, seq![]) == labels_from(p, pos, acc),
        labels_from(p, pos, acc) == Err::<(Seq<Seq<u8>>, nat), NameError>(e),
    ensures
        qname_spec(p, start) == Err::<(Seq<u8>, nat), NameError>(e),
{
}

proof fn lemma_labels_from_end(p: Seq<u8>, pos: nat, acc: Seq<Seq<u8>>)
    ensures
        labels_from(p, pos, acc) matches Ok((_, end)) ==> pos < end <= p.len(),
    decreases p.len() - pos,
{
    if pos < p.len() {
        let l = p[pos as int];
        if l < 0xC0 && l != 0 && l <= 63 && pos + 1 + l <= p.len() {
            lemma_labels_from_end(p, (pos + 1 + l) as nat, acc.push(p.subrange(pos + 1int, pos + 1 + l)));
        }
    }
}

/// Reads the name at `start_offset` of a packet, without following
/// compression pointers. Gives the dotted name (`.` for the root) and the
/// number of bytes the name takes.
pub fn parse_qname_from_dns_packet(packet_data: &[u8], start_offset: usize) -> (r: Result<
    (Vec<u8>, usize),
    NameError,
>)
    ensures
        match qname_spec(packet_data@, start_offset as nat) {
            Ok((q, n)) => r matches Ok((x, m)) && x@ == q && m == n,
            Err(e) => r == Err::<(Vec<u8>, usize), NameError>(e),
        },
{
    let n = packet_data.len();
    let mut out: Vec<u8> = Vec::new();
    let mut any_label = false;
    let mut pos: usize = start_offset;
    let ghost mut acc: Seq<Seq<u8>> = seq![];
    proof {
        lemma_labels_from_end(packet_data@, start_offset as nat, seq![]);
    }
    loop
        invariant
            n == packet_data@.len(),
            start_offset <= pos,
            pos <= n || acc.len() == 0,
            labels_from(packet_data@, start_offset as nat, seq![]) == labels_from(packet_data@, pos as nat, acc),
            out@ == join_labels(acc),
            any_label == (acc.len() > 0),
            labels_from(packet_data@, pos as nat, acc) matches Ok((_, end)) ==> pos < end <= packet_data@.len(),
        decreases n - pos,
    {
        if pos >= n {
            proof {
                lemma_qname_err(packet_data@, start_offset as nat, pos as nat, acc, NameError::Truncated);
            }
            return Err(NameError::Truncated);
        }
        let l = packet_data[pos];
        if l >= 0xC0 {
            proof {
                lemma_qname_err(packet_data@, start_offset as nat, pos as nat, acc, NameError::CompressionPointer);
            }
            return Err(NameError::CompressionPointer);
        }
        if l == 0 {
            if !any_label {
                out.push(46);
                assert(out@ =~= dotted(acc));
            }
            return Ok((out, pos + 1 - start_offset));
        }
        if l > 63 {
            proof {
                lemma_qname_err(packet_data@, start_offset as nat, pos as nat, acc, NameError::LabelTooLong);
            }
            return Err(NameError::LabelTooLong);
        }
        let len = l as usize;
        if len > n - pos - 1 {
            proof {
                lemma_qname_err(packet_data@, start_offset as nat, pos as nat, acc, NameError::Truncated);
            }
            return Err(NameError::Truncated);
        }
        let label = &packet_data[pos + 1..pos + 1 + len];
        if !utf8_valid(label) {
            proof {
                lemma_qname_err(packet_data@, start_offset as nat, pos as nat, acc, NameError::InvalidUtf8);
            }
            return Err(NameError::InvalidUtf8);
        }
        let ghost before = out@;
        if any_label {
            out.push(46);
        }
        let mut k: usize = 0;
        while k < len
            invariant
                k <= len,
                label@.len() == len,
                out@ == (if any_label {
                    before + seq![46u8]
                } else {
                    before
                }) + label@.take(k as int),
            decreases len - k,
        {
            out.push(label[k]);
            k = k + 1;
            assert(out@ =~= (if any_label {
                before + seq![46u8]
            } else {
                before
            }) + label@.take(k as int));
        }
        proof {
            let acc1 = acc.push(label@);
            assert(acc1.drop_last() =~= acc);
            assert(label@.take(len as int) =~= label@);
            if !any_label {
                assert(acc =~= seq![]);
                assert(before =~= seq![]);
                assert(out@ =~= join_labels(acc1));
            }
            acc = acc1;
            lemma_labels_from_end(packet_data@, (pos + 1 + len) as nat, acc);
        }
        pos = pos + 1 + len;
        any_label = true;
    }
}

proof fn lemma_labels_from_props(p: Seq<u8>, pos: nat, acc: Seq<Seq<u8>>)
    ensures
        labels_from(p, pos, acc) matches Ok((ls, _)) ==> {
            &&& acc.len() <= ls.len()
            &&& ls.take(acc.len() as int) == acc
            &&& forall|i: int|
                acc.len() <= i < ls.len() ==> 1 <= (#[trigger] ls[i]).len() <= 63 && is_utf8(ls[i])
        },
    decreases p.len() - pos,
{
    if pos < p.len() {
        let l = p[pos as int];
        if l < 0xC0 && l == 0 {
            assert(acc.take(acc.len() as int) =~= acc);
        }
        if l < 0xC0 && l != 0 && l <= 63 && pos + 1 + l <= p.len() {
            let label = p.subrange(pos + 1int, pos + 1 + l);
            let acc1 = acc.push(label);
            lemma_labels_from_props(p, (pos + 1 + l) as nat, acc1);
            if let Ok((ls, _)) = labels_from(p, pos, acc) {
                assert(ls.take(acc1.len() as int) == acc1);
                assert(ls.take(acc.len() as int) =~= acc1.take(acc.len() as int));
                assert(acc1.take(acc.len() as int) =~= acc);
                assert(ls[acc.len() as int] == acc1[acc.len() as int]);
            }
        }
    }
}

proof fn lemma_dot_index_concat(x: Seq<u8>, y: Seq<u8>)
    ensures
        dot_index(x) < x.len() ==> dot_index(x + y) == dot_index(x),
        dot_index(x) == x.len() ==> dot_index(x + y) == x.len() + dot_index(y),
{
    lemma_dot_index(x);
    lemma_dot_index(y);
    let s = x + y;
    if dot_index(x) < x.len() {
        lemma_dot_index_at(s, dot_index(x));
    } else {
        assert forall|k: int| 0 <= k < x.len() + dot_index(y) implies s[k] != 46 by {
            if k >= x.len() {
                assert(s[k] == y[k - x.len()]);
            }
        }
        if dot_index(y) < y.len() {
            assert(s[x.len() + dot_index(y) as int] == y[dot_index(y) as int]);
        }
        lemma_dot_index_at(s, x.len() + dot_index(y));
    }
}

/// Splitting a dotted name at one of its dots splits its label fit.
proof fn lemma_fit_split(x: Seq<u8>, y: Seq<u8>)
    ensures
        labels_fit(x + seq![46u8] + y) == (labels_fit(x) && labels_fit(y)),
        enc_labels(x + seq![46u8] + y) == enc_labels(x) + enc_labels(y),
    decreases x.len(),
{
    let s = x + seq![46u8] + y;
    lemma_dot_index(x);
    lemma_dot_index_concat(x, seq![46u8] + y);
    assert(s =~= x + (seq![46u8] + y));
    if dot_index(x) == x.len() {
        lemma_dot_index_at(seq![46u8] + y, 0);
        assert(dot_index(s) == x.len());
        assert(after_label(s) =~= y);
        assert(s.take(x.len() as int) =~= x);
        if x.len() > 0 {
            assert(after_label(x) =~= seq![]);
            assert(x.take(x.len() as int) =~= x);
            assert(enc_labels(seq![]) =~= seq![]);
            assert(enc_labels(x) =~= seq![x.len() as u8] + x);
            assert(labels_fit(seq![]));
            assert(labels_fit(x) == (x.len() <= 63));
        } else {
            assert(enc_labels(x) =~= seq![]);
            assert(labels_fit(x));
        }
        assert(labels_fit(s) == (x.len() <= 63 && labels_fit(y)));
    } else {
        let i = dot_index(x);
        let ax = after_label(x);
        assert(after_label(s) =~= ax + seq![46u8] + y);
        assert(s.take(i as int) =~= x.take(i as int));
        lemma_fit_split(ax, y);
        assert(enc_labels(s) =~= enc_labels(x) + enc_labels(y));
        assert(labels_fit(s) == (i <= 63 && labels_fit(ax + seq![46u8] + y)));
        assert(labels_fit(x) == (i <= 63 && labels_fit(ax)));
    }
}

proof fn lemma_fit_short(l: Seq<u8>)
    requires
        l.len() <= 63,
    ensures
        labels_fit(l),
    decreases l.len(),
{
    lemma_dot_index(l);
    if l.len() > 0 {
        lemma_fit_short(after_label(l));
    }
}

proof fn lemma_fit_join(ls: Seq<Seq<u8>>)
    requires
        forall|i: int| 0 <= i < ls.len() ==> (#[trigger] ls[i]).len() <= 63,
    ensures
        labels_fit(join_labels(ls)),
    decreases ls.len(),
{
    if ls.len() == 1 {
        lemma_fit_short(ls[0]);
    } else if ls.len() > 1 {
        let init = ls.drop_last();
        assert forall|i: int| 0 <= i < init.len() implies (#[trigger] init[i]).len() <= 63 by {
            assert(init[i] == ls[i]);
        }
        lemma_fit_join(init);
        lemma_fit_short(ls.last());
        lemma_fit_split(join_labels(init), ls.last());
    }
}

/// A name read from a packet can be encoded again: none of its labels is
/// over 63 bytes.
pub proof fn lemma_parsed_name_fits(p: Seq<u8>, start: nat)
    ensures
        qname_spec(p, start) matches Ok((q, _)) ==> labels_fit(q),
{
    lemma_labels_from_props(p, start, seq![]);
    if let Ok((ls, _)) = labels_from(p, start, seq![]) {
        if ls.len() == 0 {
            let root = seq![46u8];
            lemma_fit_short(root);
        } else {
            lemma_fit_join(ls);
        }
    }
}

/// Labels in wire form, each with its length byte, without the terminator.
pub open spec fn wire_labels(ls: Seq<Seq<u8>>) -> Seq<u8>
    decreases ls.len(),
{
    if ls.len() == 0 {
        seq![]
    } else {
        wire_labels(ls.drop_last()) + seq![ls.last().len() as u8] + ls.last()
    }
}

/// Labels as a decoder yields them (1 to 63 bytes of UTF-8) that in
/// addition hold no dot.
pub open spec fn plain_labels(ls: Seq<Seq<u8>>) -> bool {
    forall|i: int|
        0 <= i < ls.len() ==> {
            &&& 1 <= (#[trigger] ls[i]).len() <= 63
            &&& is_utf8(ls[i])
            &&& forall|j: int| 0 <= j < ls[i].len() ==> ls[i][j] != 46
        }
}

proof fn lemma_enc_plain_label(l: Seq<u8>)
    requires
        1 <= l.len() <= 63,
        forall|j: int| 0 <= j < l.len() ==> l[j] != 46,
    ensures
        enc_labels(l) == seq![l.len() as u8] + l,
{
    lemma_dot_index_at(l, l.len());
    assert(after_label(l) =~= seq![]);
    assert(enc_labels(seq![]) =~= seq![]);
    assert(l.take(l.len() as int) =~= l);
}

/// Encoding the dotted form of plain labels gives back those labels in
/// wire form.
pub proof fn lemma_encode_dotted(ls: Seq<Seq<u8>>)
    requires
        plain_labels(ls),
    ensures
        encode_name(dotted(ls)) == wire_labels(ls) + seq![0u8],
    decreases ls.len(),
{
    if ls.len() == 0 {
        let root = seq![46u8];
        assert(dot_index(root) == 0);
        assert(after_label(root) =~= seq![]);
        assert(enc_labels(seq![]) =~= seq![]);
        assert(enc_labels(root) =~= seq![]);
        assert(wire_labels(ls) =~= seq![]);
    } else {
        let init = ls.drop_last();
        assert(plain_labels(init)) by {
            assert forall|i: int| 0 <= i < init.len() implies {
                &&& 1 <= (#[trigger] init[i]).len() <= 63
                &&& is_utf8(init[i])
                &&& forall|j: int| 0 <= j < init[i].len() ==> init[i][j] != 46
            } by {
                assert(init[i] == ls[i]);
            }
        }
        lemma_encode_dotted(init);
        assert(ls[ls.len() - 1] == ls.last());
        lemma_enc_plain_label(ls.last());
        if ls.len() == 1 {
            assert(wire_labels(init) =~= seq![]);
            assert(wire_labels(ls) =~= seq![ls.last().len() as u8] + ls.last());
        } else {
            lemma_fit_split(join_labels(init), ls.last());
            let a = enc_labels(join_labels(init));
            assert(dotted(init) == join_labels(init));
            assert((a + seq![0u8]).drop_last() =~= a);
            assert((wire_labels(init) + seq![0u8]).drop_last() =~= wire_labels(init));
            assert(a == wire_labels(init));
        }
        assert(encode_name(dotted(ls)) =~= wire_labels(ls) + seq![0u8]);
    }
}

proof fn lemma_decode_wire_from(p: Seq<u8>, base: nat, ls: Seq<Seq<u8>>, k: nat)
    requires
        plain_labels(ls),
        k <= ls.len(),
        base + wire_labels(ls).len() < p.len(),
        p.subrange(base as int, base + wire_labels(ls).len() + 1int) == wire_labels(ls) + seq![0u8],
    ensures
        labels_from(p, base + wire_labels(ls.take(k as int)).len(), ls.take(k as int)) == Ok::<
            (Seq<Seq<u8>>, nat),
            NameError,
        >((ls, base + wire_labels(ls).len() + 1)),
    decreases ls.len() - k,
{
    let w = wire_labels(ls);
    let pre = ls.take(k as int);
    let pos = base + wire_labels(pre).len();
    assert forall|i: int| 0 <= i <= w.len() implies p[base + i] == (w + seq![0u8])[i] by {
        assert(p.subrange(base as int, base + w.len() + 1int)[i] == p[base + i]);
    }
    lemma_wire_prefix(ls, k);
    if k == ls.len() {
        assert(pre =~= ls);
        assert(p[pos as int] == (w + seq![0u8])[w.len() as int]);
    } else {
        let l = ls[k as int];
        let pre1 = ls.take(k + 1int);
        assert(pre1.drop_last() =~= pre);
        assert(pre1.last() == l);
        lemma_wire_prefix(ls, k + 1);
        let wp = wire_labels(pre);
        assert(wire_labels(pre1) == wp + seq![l.len() as u8] + l);
        assert(wire_labels(pre1).len() <= w.len());
        assert(p[base + wp.len() as int] == (w + seq![0u8])[wp.len() as int]);
        assert(p[pos as int] == w[wp.len() as int]);
        assert(w[wp.len() as int] == wire_labels(pre1)[wp.len() as int]);
        assert(p.subrange(pos + 1int, pos + 1int + l.len()) =~= l) by {
            assert forall|j: int| 0 <= j < l.len() implies p[pos + 1 + j] == l[j] by {
                assert(p[base + (wp.len() + 1 + j)] == (w + seq![0u8])[wp.len() + 1 + j]);
                assert(p[pos + 1 + j] == w[wp.len() + 1 + j]);
                assert(w[wp.len() + 1 + j] == wire_labels(pre1)[wp.len() + 1 + j]);
            }
        }
        assert(pre.push(l) =~= pre1);
        lemma_decode_wire_from(p, base, ls, k + 1);
    }
}

proof fn lemma_wire_prefix(ls: Seq<Seq<u8>>, k: nat)
    requires
        k <= ls.len(),
    ensures
        wire_labels(ls.take(k as int)).len() <= wire_labels(ls).len(),
        forall|i: int|
            0 <= i < wire_labels(ls.take(k as int)).len() ==> wire_labels(ls)[i] == wire_labels(
                ls.take(k as int),
            )[i],
    decreases ls.len(),
{
    if k < ls.len() {
        let init = ls.drop_last();
        assert(ls.take(k as int) =~= init.take(k as int));
        lemma_wire_prefix(init, k);
    } else {
        assert(ls.take(k as int) =~= ls);
    }
}

/// Reading plain labels in wire form back from a packet yields the same
/// labels, and the name ends just past its zero byte.
pub proof fn lemma_decode_wire(p: Seq<u8>, base: nat, ls: Seq<Seq<u8>>)
    requires
        plain_labels(ls),
        base + wire_labels(ls).len() < p.len(),
        p.subrange(base as int, base + wire_labels(ls).len() + 1int) == wire_labels(ls) + seq![0u8],
    ensures
        labels_from(p, base, seq![]) == Ok::<(Seq<Seq<u8>>, nat), NameError>(
            (ls, base + wire_labels(ls).len() + 1),
        ),
{
    lemma_decode_wire_from(p, base, ls, 0);
    assert(ls.take(0) =~= seq![]);
    assert(wire_labels(seq![]) =~= seq![]);
}

/// What a decoder yields: labels of 1 to 63 bytes of UTF-8.
pub proof fn lemma_decoded_labels(p: Seq<u8>, start: nat)
    ensures
        labels_from(p, start, seq![]) matches Ok((ls, _)) ==> forall|i: int|
            0 <= i < ls.len() ==> 1 <= (#[trigger] ls[i]).len() <= 63 && is_utf8(ls[i]),
{
    lemma_labels_from_props(p, start, seq![]);
}

} // verus!
