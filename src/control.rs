use vstd::prelude::*;
use crate::ids::views;
use crate::registry::{Assignment, AssignmentView, ClientTransfer, ClientTransferView};

verus! {

/// Big-endian bytes of a 32-bit length.
pub open spec fn be32(n: u32) -> Seq<u8> {
    seq![(n >> 24u32) as u8, (n >> 16u32) as u8, (n >> 8u32) as u8, n as u8]
}

/// Big-endian bytes of a generation.
pub open spec fn be64(n: u64) -> Seq<u8> {
    seq![
        (n >> 56u64) as u8,
        (n >> 48u64) as u8,
        (n >> 40u64) as u8,
        (n >> 32u64) as u8,
        (n >> 24u64) as u8,
        (n >> 16u64) as u8,
        (n >> 8u64) as u8,
        n as u8,
    ]
}

/// A byte string preceded by its length.
pub open spec fn field(b: Seq<u8>) -> Seq<u8> {
    be32(b.len() as u32) + b
}

/// Whether `b` holds `f` as a field at `pos`.
pub open spec fn field_at(b: Seq<u8>, pos: int, f: Seq<u8>) -> bool {
    &&& f.len() < 0x1_0000_0000
    &&& 0 <= pos
    &&& pos + 4 + f.len() <= b.len()
    &&& b.subrange(pos, pos + 4 + f.len()) == field(f)
}

proof fn lemma_be32_read(b0: u8, b1: u8, b2: u8, b3: u8)
    ensures
        be32(((b0 as u32) << 24u32) | ((b1 as u32) << 16u32) | ((b2 as u32) << 8u32) | (b3 as u32))
            == seq![b0, b1, b2, b3],
{
    let v: u32 = ((b0 as u32) << 24u32) | ((b1 as u32) << 16u32) | ((b2 as u32) << 8u32) | (b3 as u32);
    assert((v >> 24u32) as u8 == b0 && (v >> 16u32) as u8 == b1 && (v >> 8u32) as u8 == b2 && v as u8 == b3)
        by (bit_vector)
        requires
            v == ((b0 as u32) << 24u32) | ((b1 as u32) << 16u32) | ((b2 as u32) << 8u32) | (b3 as u32),
    ;
    assert(be32(v) =~= seq![b0, b1, b2, b3]);
}

proof fn lemma_be32_injective(x: u32, y: u32)
    requires
        be32(x) == be32(y),
    ensures
        x == y,
{
    assert(be32(x)[0] == be32(y)[0] && be32(x)[1] == be32(y)[1] && be32(x)[2] == be32(y)[2]
        && be32(x)[3] == be32(y)[3]);
    assert(x == y) by (bit_vector)
        requires
            (x >> 24u32) as u8 == (y >> 24u32) as u8,
            (x >> 16u32) as u8 == (y >> 16u32) as u8,
            (x >> 8u32) as u8 == (y >> 8u32) as u8,
            x as u8 == y as u8,
    ;
}

/// Reads a big-endian 32-bit number at `pos`.
fn read_u32(b: &Vec<u8>, pos: usize) -> (r: Option<u32>)
    ensures
        r is Some <==> pos + 4 <= b@.len(),
        r is Some ==> be32(r->0) == b@.subrange(pos as int, pos + 4),
{
    if pos > b.len() || b.len() - pos < 4 {
        return None;
    }
    let v: u32 = ((b[pos] as u32) << 24u32) | ((b[pos + 1] as u32) << 16u32) | ((b[pos + 2] as u32)
        << 8u32) | (b[pos + 3] as u32);
    proof {
        lemma_be32_read(b@[pos as int], b@[pos + 1], b@[pos + 2], b@[pos + 3]);
        assert(b@.subrange(pos as int, pos + 4) =~= seq![b@[pos as int], b@[pos + 1], b@[pos + 2], b@[pos + 3]]);
    }
    Some(v)
}

proof fn lemma_be64_read(b: Seq<u8>)
    requires
        b.len() == 8,
    ensures
        be64(
            ((b[0] as u64) << 56u64) | ((b[1] as u64) << 48u64) | ((b[2] as u64) << 40u64) | ((b[3] as u64)
                << 32u64) | ((b[4] as u64) << 24u64) | ((b[5] as u64) << 16u64) | ((b[6] as u64) << 8u64)
                | (b[7] as u64),
        ) == b,
{
    let (b0, b1, b2, b3, b4, b5, b6, b7) = (b[0], b[1], b[2], b[3], b[4], b[5], b[6], b[7]);
    let v: u64 = ((b0 as u64) << 56u64) | ((b1 as u64) << 48u64) | ((b2 as u64) << 40u64) | ((b3 as u64)
        << 32u64) | ((b4 as u64) << 24u64) | ((b5 as u64) << 16u64) | ((b6 as u64) << 8u64) | (b7 as u64);
    assert((v >> 56u64) as u8 == b0 && (v >> 48u64) as u8 == b1 && (v >> 40u64) as u8 == b2 && (v
        >> 32u64) as u8 == b3 && (v >> 24u64) as u8 == b4 && (v >> 16u64) as u8 == b5 && (v >> 8u64) as u8
        == b6 && v as u8 == b7) by (bit_vector)
        requires
            v == ((b0 as u64) << 56u64) | ((b1 as u64) << 48u64) | ((b2 as u64) << 40u64) | ((b3 as u64)
                << 32u64) | ((b4 as u64) << 24u64) | ((b5 as u64) << 16u64) | ((b6 as u64) << 8u64) | (
            b7 as u64),
    ;
    assert(be64(v) =~= b);
}

proof fn lemma_be64_injective(x: u64, y: u64)
    requires
        be64(x) == be64(y),
    ensures
        x == y,
{
    assert(be64(x)[0] == be64(y)[0] && be64(x)[1] == be64(y)[1] && be64(x)[2] == be64(y)[2]
        && be64(x)[3] == be64(y)[3] && be64(x)[4] == be64(y)[4] && be64(x)[5] == be64(y)[5]
        && be64(x)[6] == be64(y)[6] && be64(x)[7] == be64(y)[7]);
    assert(x == y) by (bit_vector)
        requires
            (x >> 56u64) as u8 == (y >> 56u64) as u8,
            (x >> 48u64) as u8 == (y >> 48u64) as u8,
            (x >> 40u64) as u8 == (y >> 40u64) as u8,
            (x >> 32u64) as u8 == (y >> 32u64) as u8,
            (x >> 24u64) as u8 == (y >> 24u64) as u8,
            (x >> 16u64) as u8 == (y >> 16u64) as u8,
            (x >> 8u64) as u8 == (y >> 8u64) as u8,
            x as u8 == y as u8,
    ;
}

/// Reads a big-endian 64-bit number at `pos`.
fn read_u64(b: &Vec<u8>, pos: usize) -> (r: Option<u64>)
    ensures
        r is Some <==> pos + 8 <= b@.len(),
        r is Some ==> be64(r->0) == b@.subrange(pos as int, pos + 8),
{
    if pos > b.len() || b.len() - pos < 8 {
        return None;
    }
    let v: u64 = ((b[pos] as u64) << 56u64) | ((b[pos + 1] as u64) << 48u64) | ((b[pos + 2] as u64)
        << 40u64) | ((b[pos + 3] as u64) << 32u64) | ((b[pos + 4] as u64) << 24u64) | ((b[pos
        + 5] as u64) << 16u64) | ((b[pos + 6] as u64) << 8u64) | (b[pos + 7] as u64);
    proof {
        lemma_be64_read(b@.subrange(pos as int, pos + 8));
    }
    Some(v)
}

/// Reads a length-prefixed byte string at `pos`, returning it with the
/// position after it.
fn read_field(b: &Vec<u8>, pos: usize) -> (r: Option<(Vec<u8>, usize)>)
    ensures
        match r {
            Some((f, q)) => field_at(b@, pos as int, f@) && q == pos + 4 + f@.len(),
            None => forall|f: Seq<u8>| !#[trigger] field_at(b@, pos as int, f),
        },
        forall|f: Seq<u8>| #[trigger]
            field_at(b@, pos as int, f) ==> match r {
                Some((g, _)) => g@ == f,
                None => false,
            },
{
    let n = match read_u32(b, pos) {
        Some(n) => n,
        None => {
            assert forall|f: Seq<u8>| #[trigger] field_at(b@, pos as int, f) implies false by {}
            return None;
        },
    };
    proof {
        assert forall|f: Seq<u8>| #[trigger] field_at(b@, pos as int, f) implies f.len() == n by {
            assert(b@.subrange(pos as int, pos + 4) =~= field(f).subrange(0, 4));
            assert(field(f).subrange(0, 4) =~= be32(f.len() as u32));
            lemma_be32_injective(n, f.len() as u32);
        }
    }
    if b.len() - pos - 4 < n as usize {
        return None;
    }
    let start = pos + 4;
    let end = start + n as usize;
    let mut out: Vec<u8> = Vec::new();
    let mut i: usize = start;
    while i < end
        invariant
            start <= i <= end <= b@.len(),
            out@ == b@.subrange(start as int, i as int),
        decreases end - i,
    {
        out.push(b[i]);
        i = i + 1;
        assert(out@ =~= b@.subrange(start as int, i as int));
    }
    proof {
        assert(b@.subrange(pos as int, end as int) =~= field(out@));
        assert forall|f: Seq<u8>| #[trigger] field_at(b@, pos as int, f) implies out@ == f by {
            assert(f =~= field(f).subrange(4, 4 + f.len() as int));
            assert(field(f).subrange(4, 4 + f.len() as int) =~= b@.subrange(start as int, end as int));
        }
    }
    Some((out, end))
}

/// Registry messages carried over the control topic.
pub enum ControlMessage {
    /// An overloaded provider offers these clients.
    Spread(Vec<Vec<u8>>),
    /// A peer proposes to take over a client.
    Transfer(ClientTransfer),
    /// A committed assignment, announced to every peer.
    Confirm(Assignment),
}

pub enum ControlView {
    Spread(Seq<Seq<u8>>),
    Transfer(ClientTransferView),
    Confirm(AssignmentView),
}

impl View for ControlMessage {
    type V = ControlView;

    open spec fn view(&self) -> ControlView {
        match self {
            ControlMessage::Spread(cs) => ControlView::Spread(views(cs@)),
            ControlMessage::Transfer(t) => ControlView::Transfer(t@),
            ControlMessage::Confirm(a) => ControlView::Confirm(a@),
        }
    }
}

/// The fields of a list of byte strings, one after the other.
pub open spec fn fields(s: Seq<Seq<u8>>) -> Seq<u8>
    decreases s.len(),
{
    if s.len() == 0 {
        Seq::empty()
    } else {
        fields(s.drop_last()) + field(s.last())
    }
}

/// Two fields followed by a generation.
pub open spec fn pair_encoding(x: Seq<u8>, y: Seq<u8>, g: u64) -> Seq<u8> {
    field(x) + field(y) + be64(g)
}

/// The bytes of a control message: a kind byte (1 spread, 2 transfer,
/// 3 confirmation), then its fields; a spread gives its count of clients
/// first.
pub open spec fn encoding(m: ControlView) -> Seq<u8> {
    match m {
        ControlView::Spread(cs) => seq![1u8] + be32(cs.len() as u32) + fields(cs),
        ControlView::Transfer(t) => seq![2u8] + pair_encoding(t.client, t.candidate, t.generation),
        ControlView::Confirm(a) => seq![3u8] + pair_encoding(a.client, a.provider, a.generation),
    }
}

/// Every length fits the 32-bit prefixes.
pub open spec fn encodable(m: ControlView) -> bool {
    match m {
        ControlView::Spread(cs) => cs.len() < 0x1_0000_0000 && forall|i: int|
            0 <= i < cs.len() ==> #[trigger] cs[i].len() < 0x1_0000_0000,
        ControlView::Transfer(t) => t.client.len() < 0x1_0000_0000 && t.candidate.len()
            < 0x1_0000_0000,
        ControlView::Confirm(a) => a.client.len() < 0x1_0000_0000 && a.provider.len()
            < 0x1_0000_0000,
    }
}

fn push_u32(out: &mut Vec<u8>, n: u32)
    ensures
        final(out)@ == old(out)@ + be32(n),
{
    out.push((n >> 24u32) as u8);
    out.push((n >> 16u32) as u8);
    out.push((n >> 8u32) as u8);
    out.push(n as u8);
    assert(out@ =~= old(out)@ + be32(n));
}

fn push_u64(out: &mut Vec<u8>, n: u64)
    ensures
        final(out)@ == old(out)@ + be64(n),
{
    out.push((n >> 56u64) as u8);
    out.push((n >> 48u64) as u8);
    out.push((n >> 40u64) as u8);
    out.push((n >> 32u64) as u8);
    out.push((n >> 24u64) as u8);
    out.push((n >> 16u64) as u8);
    out.push((n >> 8u64) as u8);
    out.push(n as u8);
    assert(out@ =~= old(out)@ + be64(n));
}

fn push_field(out: &mut Vec<u8>, f: &Vec<u8>)
    requires
        f@.len() < 0x1_0000_0000,
    ensures
        final(out)@ == old(out)@ + field(f@),
{
    push_u32(out, f.len() as u32);
    let ghost mid = out@;
    let mut i: usize = 0;
    while i < f.len()
        invariant
            i <= f@.len(),
            out@ == mid + f@.take(i as int),
        decreases f@.len() - i,
    {
        out.push(f[i]);
        i = i + 1;
        assert(out@ =~= mid + f@.take(i as int));
    }
    assert(f@.take(i as int) =~= f@);
    assert(out@ =~= old(out)@ + field(f@));
}

fn push_pair(out: &mut Vec<u8>, x: &Vec<u8>, y: &Vec<u8>, g: u64)
    requires
        x@.len() < 0x1_0000_0000,
        y@.len() < 0x1_0000_0000,
    ensures
        final(out)@ == old(out)@ + pair_encoding(x@, y@, g),
{
    push_field(out, x);
    push_field(out, y);
    push_u64(out, g);
    assert(out@ =~= old(out)@ + pair_encoding(x@, y@, g));
}

/// Whether a spread of `cs` fits the 32-bit length prefixes.
pub fn spread_encodable(cs: &Vec<Vec<u8>>) -> (r: bool)
    ensures
        r == encodable(ControlView::Spread(views(cs@))),
{
    if cs.len() as u64 > 0xFFFF_FFFFu64 {
        return false;
    }
    let mut i: usize = 0;
    while i < cs.len()
        invariant
            i <= cs@.len() < 0x1_0000_0000,
            forall|k: int| 0 <= k < i ==> #[trigger] views(cs@)[k].len() < 0x1_0000_0000,
        decreases cs@.len() - i,
    {
        if cs[i].len() as u64 > 0xFFFF_FFFFu64 {
            assert(views(cs@)[i as int].len() >= 0x1_0000_0000);
            return false;
        }
        i = i + 1;
    }
    true
}

/// The bytes that carry `m`.
pub fn encode(m: &ControlMessage) -> (r: Vec<u8>)
    requires
        encodable(m@),
    ensures
        r@ == encoding(m@),
{
    let mut out: Vec<u8> = Vec::new();
    match m {
        ControlMessage::Spread(cs) => {
            out.push(1u8);
            push_u32(&mut out, cs.len() as u32);
            let ghost head = out@;
            let mut i: usize = 0;
            while i < cs.len()
                invariant
                    i <= cs@.len(),
                    encodable(m@),
                    m@ == ControlView::Spread(views(cs@)),
                    head == seq![1u8] + be32(cs@.len() as u32),
                    out@ == head + fields(views(cs@).take(i as int)),
                decreases cs@.len() - i,
            {
                assert(views(cs@)[i as int].len() < 0x1_0000_0000);
                push_field(&mut out, &cs[i]);
                assert(views(cs@).take(i + 1).drop_last() =~= views(cs@).take(i as int));
                assert(out@ =~= head + fields(views(cs@).take(i + 1)));
                i = i + 1;
            }
            assert(views(cs@).take(i as int) =~= views(cs@));
        },
        ControlMessage::Transfer(t) => {
            out.push(2u8);
            push_pair(&mut out, &t.client, &t.candidate, t.generation);
        },
        ControlMessage::Confirm(a) => {
            out.push(3u8);
            push_pair(&mut out, &a.client, &a.provider, a.generation);
        },
    }
    out
}

proof fn lemma_pair_parts(b: Seq<u8>, x: Seq<u8>, y: Seq<u8>, g: u64)
    requires
        b.len() >= 1,
        x.len() < 0x1_0000_0000,
        y.len() < 0x1_0000_0000,
        b.subrange(1, b.len() as int) == pair_encoding(x, y, g),
    ensures
        field_at(b, 1, x),
        field_at(b, 5 + x.len() as int, y),
        b.subrange(9 + x.len() + y.len() as int, 17 + x.len() + y.len() as int) == be64(g),
        b.len() == 17 + x.len() + y.len(),
{
    let xl = x.len() as int;
    let yl = y.len() as int;
    let rest = b.subrange(1, b.len() as int);
    assert(be32(x.len() as u32).len() == 4 && be32(y.len() as u32).len() == 4);
    assert(be64(g).len() == 8);
    assert(field(x).len() == 4 + xl && field(y).len() == 4 + yl);
    assert(pair_encoding(x, y, g).len() == 16 + xl + yl);
    assert(rest.len() == b.len() - 1);
    assert(b.len() == 17 + xl + yl);
    assert(b.subrange(1, 5 + xl) =~= rest.subrange(0, 4 + xl));
    assert(rest.subrange(0, 4 + xl) =~= field(x));
    assert(b.subrange(5 + xl, 9 + xl + yl) =~= rest.subrange(4 + xl, 8 + xl + yl));
    assert(rest.subrange(4 + xl, 8 + xl + yl) =~= field(y));
    assert(b.subrange(9 + xl + yl, 17 + xl + yl) =~= rest.subrange(8 + xl + yl, 16 + xl + yl));
    assert(rest.subrange(8 + xl + yl, 16 + xl + yl) =~= be64(g));
}

/// Reads two fields and a generation that fill `b` after its kind byte.
fn read_pair(b: &Vec<u8>) -> (r: Option<(Vec<u8>, Vec<u8>, u64)>)
    requires
        b@.len() >= 1,
    ensures
        match r {
            Some((x, y, g)) => x@.len() < 0x1_0000_0000 && y@.len() < 0x1_0000_0000 && b@.subrange(
                1,
                b@.len() as int,
            ) == pair_encoding(x@, y@, g),
            None => forall|x: Seq<u8>, y: Seq<u8>, g: u64|
                x.len() < 0x1_0000_0000 && y.len() < 0x1_0000_0000 ==> #[trigger] pair_encoding(x, y, g)
                    != b@.subrange(1, b@.len() as int),
        },
        forall|x: Seq<u8>, y: Seq<u8>, g: u64|
            x.len() < 0x1_0000_0000 && y.len() < 0x1_0000_0000 && #[trigger] pair_encoding(x, y, g)
                == b@.subrange(1, b@.len() as int) ==> match r {
                Some((x2, y2, g2)) => x2@ == x && y2@ == y && g2 == g,
                None => false,
            },
{
    let (x, after_x) = match read_field(b, 1) {
        Some(v) => v,
        None => {
            assert forall|x: Seq<u8>, y: Seq<u8>, g: u64|
                x.len() < 0x1_0000_0000 && y.len() < 0x1_0000_0000 implies #[trigger] pair_encoding(x, y, g)
                != b@.subrange(1, b@.len() as int) by {
                if pair_encoding(x, y, g) == b@.subrange(1, b@.len() as int) {
                    lemma_pair_parts(b@, x, y, g);
                }
            }
            return None;
        },
    };
    let (y, after_y) = match read_field(b, after_x) {
        Some(v) => v,
        None => {
            assert forall|x2: Seq<u8>, y: Seq<u8>, g: u64|
                x2.len() < 0x1_0000_0000 && y.len() < 0x1_0000_0000 implies #[trigger] pair_encoding(x2, y, g)
                != b@.subrange(1, b@.len() as int) by {
                if pair_encoding(x2, y, g) == b@.subrange(1, b@.len() as int) {
                    lemma_pair_parts(b@, x2, y, g);
                }
            }
            return None;
        },
    };
    let gr = read_u64(b, after_y);
    let g = match gr {
        Some(v) => v,
        None => {
            assert forall|x2: Seq<u8>, y2: Seq<u8>, g: u64|
                x2.len() < 0x1_0000_0000 && y2.len() < 0x1_0000_0000 implies #[trigger] pair_encoding(x2, y2, g)
                != b@.subrange(1, b@.len() as int) by {
                if pair_encoding(x2, y2, g) == b@.subrange(1, b@.len() as int) {
                    lemma_pair_parts(b@, x2, y2, g);
                }
            }
            return None;
        },
    };
    assert(after_y + 8 <= b@.len());
    if b.len() - after_y != 8 {
        assert forall|x2: Seq<u8>, y2: Seq<u8>, g2: u64|
            x2.len() < 0x1_0000_0000 && y2.len() < 0x1_0000_0000 implies #[trigger] pair_encoding(x2, y2, g2)
            != b@.subrange(1, b@.len() as int) by {
            if pair_encoding(x2, y2, g2) == b@.subrange(1, b@.len() as int) {
                lemma_pair_parts(b@, x2, y2, g2);
            }
        }
        return None;
    }
    proof {
        assert(b@.subrange(1, b@.len() as int) =~= b@.subrange(1, after_x as int) + b@.subrange(
            after_x as int,
            after_y as int,
        ) + b@.subrange(after_y as int, after_y + 8));
        assert forall|x2: Seq<u8>, y2: Seq<u8>, g2: u64|
            x2.len() < 0x1_0000_0000 && y2.len() < 0x1_0000_0000 && #[trigger] pair_encoding(x2, y2, g2)
                == b@.subrange(1, b@.len() as int) implies x@ == x2 && y@ == y2 && g == g2 by {
            lemma_pair_parts(b@, x2, y2, g2);
            lemma_be64_injective(g, g2);
        }
    }
    Some((x, y, g))
}

proof fn lemma_fields_step(cs: Seq<Seq<u8>>, k: int)
    requires
        0 <= k < cs.len(),
    ensures
        fields(cs.take(k + 1)) == fields(cs.take(k)) + field(cs[k]),
{
    assert(cs.take(k + 1).drop_last() =~= cs.take(k));
}

proof fn lemma_fields_prefix(cs: Seq<Seq<u8>>, j: int)
    requires
        0 <= j <= cs.len(),
    ensures
        fields(cs.take(j)).len() <= fields(cs).len(),
        fields(cs).subrange(0, fields(cs.take(j)).len() as int) == fields(cs.take(j)),
    decreases cs.len(),
{
    if j < cs.len() {
        lemma_fields_prefix(cs.drop_last(), j);
        assert(cs.drop_last().take(j) =~= cs.take(j));
        assert(fields(cs).subrange(0, fields(cs.take(j)).len() as int) =~= fields(
            cs.drop_last(),
        ).subrange(0, fields(cs.take(j)).len() as int));
    } else {
        assert(cs.take(j) =~= cs);
        assert(fields(cs).subrange(0, fields(cs).len() as int) =~= fields(cs));
    }
}

/// In the bytes of a spread, client `k` stands as a field after the ones
/// before it.
proof fn lemma_spread_field(b: Seq<u8>, cs: Seq<Seq<u8>>, k: int)
    requires
        0 <= k < cs.len(),
        encodable(ControlView::Spread(cs)),
        b == encoding(ControlView::Spread(cs)),
    ensures
        field_at(b, 5 + fields(cs.take(k)).len() as int, cs[k]),
{
    lemma_fields_prefix(cs, k + 1);
    lemma_fields_step(cs, k);
    let pre = fields(cs.take(k)).len() as int;
    let n = cs[k].len() as int;
    let all = fields(cs);
    assert(b.subrange(5 + pre, 5 + pre + 4 + n) =~= all.subrange(pre, pre + 4 + n));
    assert(all.subrange(pre, pre + 4 + n) =~= fields(cs.take(k + 1)).subrange(pre, pre + 4 + n));
    assert(fields(cs.take(k + 1)).subrange(pre, pre + 4 + n) =~= field(cs[k]));
}

/// Reads the clients of a spread that fill `b` after its kind byte.
fn read_spread(b: &Vec<u8>) -> (r: Option<Vec<Vec<u8>>>)
    requires
        b@.len() >= 1,
        b@[0] == 1u8,
    ensures
        match r {
            Some(cs) => encodable(ControlView::Spread(views(cs@))) && encoding(
                ControlView::Spread(views(cs@)),
            ) == b@,
            None => forall|cs: Seq<Seq<u8>>|
                encodable(ControlView::Spread(cs)) ==> #[trigger] encoding(ControlView::Spread(cs))
                    != b@,
        },
        forall|cs: Seq<Seq<u8>>|
            encodable(ControlView::Spread(cs)) && #[trigger] encoding(ControlView::Spread(cs)) == b@
                ==> match r {
                Some(out) => views(out@) == cs,
                None => false,
            },
{
    let count = match read_u32(b, 1) {
        Some(n) => n,
        None => {
            assert forall|cs: Seq<Seq<u8>>|
                encodable(ControlView::Spread(cs)) implies #[trigger] encoding(ControlView::Spread(cs))
                != b@ by {}
            return None;
        },
    };
    proof {
        assert forall|cs: Seq<Seq<u8>>|
            encodable(ControlView::Spread(cs)) && #[trigger] encoding(ControlView::Spread(cs)) == b@
                implies cs.len() == count by {
            assert(b@.subrange(1, 5) =~= be32(cs.len() as u32));
            lemma_be32_injective(count, cs.len() as u32);
        }
        assert(b@.subrange(5, 5) =~= fields(views(Seq::<Vec<u8>>::empty())));
    }
    let mut out: Vec<Vec<u8>> = Vec::new();
    let mut pos: usize = 5;
    let mut k: u32 = 0;
    while k < count
        invariant
            5 <= pos <= b@.len(),
            out@.len() == k,
            k <= count,
            be32(count) == b@.subrange(1, 5),
            b@.subrange(5, pos as int) == fields(views(out@)),
            forall|i: int| 0 <= i < out@.len() ==> #[trigger] views(out@)[i].len() < 0x1_0000_0000,
            forall|cs: Seq<Seq<u8>>|
                encodable(ControlView::Spread(cs)) && #[trigger] encoding(ControlView::Spread(cs))
                    == b@ ==> cs.len() == count && views(out@) == cs.take(k as int),
        decreases count - k,
    {
        let (f, q) = match read_field(b, pos) {
            Some(v) => v,
            None => {
                assert forall|cs: Seq<Seq<u8>>|
                    encodable(ControlView::Spread(cs)) implies #[trigger] encoding(
                    ControlView::Spread(cs),
                ) != b@ by {
                    if encoding(ControlView::Spread(cs)) == b@ {
                        lemma_spread_field(b@, cs, k as int);
                    }
                }
                return None;
            },
        };
        let ghost prev = views(out@);
        out.push(f);
        proof {
            assert(views(out@) =~= prev.push(f@));
            lemma_fields_step(views(out@), k as int);
            assert(views(out@).take(k as int) =~= prev);
            assert(views(out@).take(k + 1) =~= views(out@));
            assert(b@.subrange(5, q as int) =~= b@.subrange(5, pos as int) + b@.subrange(
                pos as int,
                q as int,
            ));
            assert forall|cs: Seq<Seq<u8>>|
                encodable(ControlView::Spread(cs)) && #[trigger] encoding(ControlView::Spread(cs))
                    == b@ implies views(out@) == cs.take(k + 1) by {
                lemma_spread_field(b@, cs, k as int);
                assert(fields(cs.take(k as int)) == fields(prev));
                assert(cs.take(k + 1) =~= cs.take(k as int).push(cs[k as int]));
            }
        }
        pos = q;
        k = k + 1;
    }
    if pos != b.len() {
        proof {
            assert forall|cs: Seq<Seq<u8>>|
                encodable(ControlView::Spread(cs)) implies #[trigger] encoding(ControlView::Spread(cs))
                != b@ by {
                if encoding(ControlView::Spread(cs)) == b@ {
                    assert(cs.take(cs.len() as int) =~= cs);
                    assert(b@.subrange(5, b@.len() as int) =~= fields(cs));
                }
            }
        }
        return None;
    }
    proof {
        assert(b@ =~= seq![1u8] + be32(count) + fields(views(out@)));
    }
    Some(out)
}

/// Reads a control message from its bytes: `None` exactly when the bytes
/// carry no message.
pub fn decode(b: &Vec<u8>) -> (r: Option<ControlMessage>)
    ensures
        match r {
            Some(m) => encodable(m@) && encoding(m@) == b@,
            None => forall|m: ControlView| encodable(m) ==> #[trigger] encoding(m) != b@,
        },
        forall|m: ControlView| encodable(m) && #[trigger] encoding(m) == b@ ==> match r {
            Some(d) => d@ == m,
            None => false,
        },
{
    if b.len() == 0 {
        assert forall|m: ControlView| encodable(m) implies #[trigger] encoding(m) != b@ by {
            assert(encoding(m).len() > 0);
        }
        return None;
    }
    let kind = b[0];
    if kind == 1u8 {
        let r = match read_spread(b) {
            Some(cs) => Some(ControlMessage::Spread(cs)),
            None => None,
        };
        assert forall|m: ControlView| encodable(m) && #[trigger] encoding(m) == b@ implies m is Spread by {
            assert(encoding(m)[0] == b@[0]);
        }
        r
    } else if kind == 2u8 || kind == 3u8 {
        let r = match read_pair(b) {
            Some((x, y, g)) => if kind == 2u8 {
                let t = ClientTransfer { client: x, candidate: y, generation: g };
                assert(b@ =~= seq![2u8] + b@.subrange(1, b@.len() as int));
                Some(ControlMessage::Transfer(t))
            } else {
                let a = Assignment { client: x, provider: y, generation: g };
                assert(b@ =~= seq![3u8] + b@.subrange(1, b@.len() as int));
                Some(ControlMessage::Confirm(a))
            },
            None => None,
        };
        assert forall|m: ControlView| encodable(m) && #[trigger] encoding(m) == b@ implies match r {
            Some(d) => d@ == m,
            None => false,
        } by {
            assert(encoding(m)[0] == b@[0]);
            assert(encoding(m).subrange(1, encoding(m).len() as int) =~= match m {
                ControlView::Transfer(t) => pair_encoding(t.client, t.candidate, t.generation),
                ControlView::Confirm(a) => pair_encoding(a.client, a.provider, a.generation),
                ControlView::Spread(cs) => be32(cs.len() as u32) + fields(cs),
            });
        }
        assert(r is None ==> forall|m: ControlView| encodable(m) ==> #[trigger] encoding(m) != b@);
        r
    } else {
        assert forall|m: ControlView| encodable(m) implies #[trigger] encoding(m) != b@ by {
            assert(encoding(m)[0] == 1u8 || encoding(m)[0] == 2u8 || encoding(m)[0] == 3u8);
        }
        None
    }
}

} // verus!
