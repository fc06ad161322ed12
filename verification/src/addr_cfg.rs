//! The IP address table of the beamformer's fiber links.
//!
//! The table holds, for each of two beams, four fiber links; each link has a
//! server and a device address (four 16-bit words each) and port. Its file
//! image is 80 little-endian 16-bit words (160 bytes): the links of beam 1,
//! then those of beam 2, each link as server address, server port, device
//! address, device port.
use vstd::prelude::*;
use crate::bytes::{
    le16_at, le_u16s_at, lemma_le_u16s_roundtrip, lemma_u16s_le_roundtrip, push_u16s_le, read_le16s,
    u16s_le,
};

verus! {

/// Length in bytes of the file image of the address table.
pub const ADDR_CFG_RAW_LEN: usize = 160;

/// The addresses and ports of one fiber link.
#[derive(Debug, Default, Clone, Copy, PartialEq, Eq)]
pub struct FiberAddrPair {
    pub srv_addr: [u16; 4],
    pub srv_port: u16,
    pub dev_addr: [u16; 4],
    pub dev_port: u16,
}

/// The fiber links of both beams.
#[derive(Debug, Default, Clone, Copy, PartialEq, Eq)]
pub struct AddrCfg {
    pub beam1: [FiberAddrPair; 4],
    pub beam2: [FiberAddrPair; 4],
}

impl FiberAddrPair {
    /// The ten words of the link in the file image.
    pub open spec fn spec_words(self) -> Seq<u16> {
        self.srv_addr@ + seq![self.srv_port] + self.dev_addr@ + seq![self.dev_port]
    }

    fn push_words(&self, out: &mut Vec<u16>)
        ensures
            final(out)@ == old(out)@ + self.spec_words(),
    {
        let mut j: usize = 0;
        while j < 4
            invariant
                j <= 4,
                out@ == old(out)@ + self.srv_addr@.take(j as int),
            decreases 4 - j,
        {
            out.push(self.srv_addr[j]);
            assert(self.srv_addr@.take(j + 1) =~= self.srv_addr@.take(j as int).push(
                self.srv_addr@[j as int],
            ));
            j = j + 1;
        }
        out.push(self.srv_port);
        let ghost mid = out@;
        let mut j: usize = 0;
        while j < 4
            invariant
                j <= 4,
                out@ == mid + self.dev_addr@.take(j as int),
            decreases 4 - j,
        {
            out.push(self.dev_addr[j]);
            assert(self.dev_addr@.take(j + 1) =~= self.dev_addr@.take(j as int).push(
                self.dev_addr@[j as int],
            ));
            j = j + 1;
        }
        out.push(self.dev_port);
        assert(self.srv_addr@.take(4) =~= self.srv_addr@);
        assert(self.dev_addr@.take(4) =~= self.dev_addr@);
        assert(final(out)@ =~= old(out)@ + self.spec_words());
    }

    fn from_words(w: &Vec<u16>, base: usize) -> (p: FiberAddrPair)
        requires
            base + 10 <= w.len(),
        ensures
            p.spec_words() == w@.subrange(base as int, base + 10),
    {
        let p = FiberAddrPair {
            srv_addr: [w[base], w[base + 1], w[base + 2], w[base + 3]],
            srv_port: w[base + 4],
            dev_addr: [w[base + 5], w[base + 6], w[base + 7], w[base + 8]],
            dev_port: w[base + 9],
        };
        assert(p.spec_words() =~= w@.subrange(base as int, base + 10));
        p
    }
}

/// The words of a link determine the link.
pub proof fn lemma_pair_determined(p1: FiberAddrPair, p2: FiberAddrPair)
    requires
        p1.spec_words() == p2.spec_words(),
    ensures
        p1 == p2,
{
    let w = p1.spec_words();
    let v = p2.spec_words();
    assert(p1.srv_addr@ =~= w.subrange(0, 4));
    assert(p2.srv_addr@ =~= v.subrange(0, 4));
    assert(p1.dev_addr@ =~= w.subrange(5, 9));
    assert(p2.dev_addr@ =~= v.subrange(5, 9));
    assert(p1.srv_addr =~= p2.srv_addr);
    assert(p1.dev_addr =~= p2.dev_addr);
    assert(w[4] == v[4]);
    assert(w[9] == v[9]);
}

impl AddrCfg {
    /// The link at position `j` of the file image: links 0 to 3 are those of
    /// beam 1, links 4 to 7 those of beam 2.
    pub open spec fn spec_pair(self, j: int) -> FiberAddrPair {
        if j < 4 {
            self.beam1[j]
        } else {
            self.beam2[j - 4]
        }
    }

    /// The 80 words of the file image.
    pub open spec fn spec_words(self) -> Seq<u16> {
        self.spec_pair(0).spec_words() + self.spec_pair(1).spec_words() + self.spec_pair(
            2,
        ).spec_words() + self.spec_pair(3).spec_words() + self.spec_pair(4).spec_words()
            + self.spec_pair(5).spec_words() + self.spec_pair(6).spec_words() + self.spec_pair(
            7,
        ).spec_words()
    }

    /// The 160 bytes of the file image.
    pub open spec fn spec_raw(self) -> Seq<u8> {
        u16s_le(self.spec_words())
    }

    /// The file image of the table: its words, two little-endian bytes each.
    pub fn to_raw(&self) -> (r: Vec<u8>)
        ensures
            r@ == self.spec_raw(),
    {
        let mut words: Vec<u16> = Vec::new();
        let ghost w0 = words@;
        let mut i: usize = 0;
        while i < 4
            invariant
                i <= 4,
                words@.len() == 10 * i,
                forall|j: int| 0 <= j < i ==> #[trigger] words@.subrange(10 * j, 10 * j + 10) == self.spec_pair(j).spec_words(),
            decreases 4 - i,
        {
            let ghost before = words@;
            self.beam1[i].push_words(&mut words);
            assert forall|j: int| 0 <= j < i + 1 implies #[trigger] words@.subrange(10 * j, 10 * j + 10) == self.spec_pair(j).spec_words() by {
                if j < i {
                    assert(words@.subrange(10 * j, 10 * j + 10) =~= before.subrange(10 * j, 10 * j + 10));
                } else {
                    assert(words@.subrange(10 * j, 10 * j + 10) =~= self.beam1[i as int].spec_words());
                }
            }
            i = i + 1;
        }
        let mut i: usize = 0;
        while i < 4
            invariant
                i <= 4,
                words@.len() == 40 + 10 * i,
                forall|j: int| 0 <= j < 4 + i ==> #[trigger] words@.subrange(10 * j, 10 * j + 10) == self.spec_pair(j).spec_words(),
            decreases 4 - i,
        {
            let ghost before = words@;
            self.beam2[i].push_words(&mut words);
            assert forall|j: int| 0 <= j < 4 + i + 1 implies #[trigger] words@.subrange(10 * j, 10 * j + 10) == self.spec_pair(j).spec_words() by {
                if j < 4 + i {
                    assert(words@.subrange(10 * j, 10 * j + 10) =~= before.subrange(10 * j, 10 * j + 10));
                } else {
                    assert(words@.subrange(10 * j, 10 * j + 10) =~= self.beam2[i as int].spec_words());
                }
            }
            i = i + 1;
        }
        proof {
            lemma_words_from_pairs(*self, words@);
        }
        let mut result: Vec<u8> = Vec::new();
        push_u16s_le(&mut result, words.as_slice());
        assert(result@ =~= self.spec_raw());
        result
    }

    /// The table in a file image of 160 bytes.
    pub fn from_raw(input: &[u8]) -> (r: AddrCfg)
        requires
            input@.len() == ADDR_CFG_RAW_LEN,
        ensures
            r.spec_words() == le_u16s_at(input@, 0, 80),
    {
        let w = read_le16s(input, 0, 80);
        let result = AddrCfg {
            beam1: [
                FiberAddrPair::from_words(&w, 0),
                FiberAddrPair::from_words(&w, 10),
                FiberAddrPair::from_words(&w, 20),
                FiberAddrPair::from_words(&w, 30),
            ],
            beam2: [
                FiberAddrPair::from_words(&w, 40),
                FiberAddrPair::from_words(&w, 50),
                FiberAddrPair::from_words(&w, 60),
                FiberAddrPair::from_words(&w, 70),
            ],
        };
        proof {
            assert forall|j: int| 0 <= j < 8 implies #[trigger] w@.subrange(10 * j, 10 * j + 10)
                == result.spec_pair(j).spec_words() by {
            }
            lemma_words_from_pairs(result, w@);
        }
        result
    }
}

proof fn lemma_words_from_pairs(c: AddrCfg, w: Seq<u16>)
    requires
        w.len() == 80,
        forall|j: int| 0 <= j < 8 ==> #[trigger] w.subrange(10 * j, 10 * j + 10) == c.spec_pair(j).spec_words(),
    ensures
        w == c.spec_words(),
{
    let (j0, j1, j2, j3, j4, j5, j6, j7) = (0int, 1int, 2int, 3int, 4int, 5int, 6int, 7int);
    assert(w.subrange(10 * j0, 10 * j0 + 10) == c.spec_pair(j0).spec_words());
    assert(w.subrange(10 * j1, 10 * j1 + 10) == c.spec_pair(j1).spec_words());
    assert(w.subrange(10 * j2, 10 * j2 + 10) == c.spec_pair(j2).spec_words());
    assert(w.subrange(10 * j3, 10 * j3 + 10) == c.spec_pair(j3).spec_words());
    assert(w.subrange(10 * j4, 10 * j4 + 10) == c.spec_pair(j4).spec_words());
    assert(w.subrange(10 * j5, 10 * j5 + 10) == c.spec_pair(j5).spec_words());
    assert(w.subrange(10 * j6, 10 * j6 + 10) == c.spec_pair(j6).spec_words());
    assert(w.subrange(10 * j7, 10 * j7 + 10) == c.spec_pair(j7).spec_words());
    assert(w =~= w.subrange(0, 10) + w.subrange(10, 20) + w.subrange(20, 30) + w.subrange(30, 40)
        + w.subrange(40, 50) + w.subrange(50, 60) + w.subrange(60, 70) + w.subrange(70, 80));
}

#[verifier::spinoff_prover]
proof fn lemma_words_chunks(c: AddrCfg)
    ensures
        c.spec_words().len() == 80,
        forall|j: int| 0 <= j < 8 ==> #[trigger] c.spec_words().subrange(10 * j, 10 * j + 10) == c.spec_pair(j).spec_words(),
{
    let w = c.spec_words();
    assert(w.subrange(0, 10) =~= c.spec_pair(0).spec_words());
    assert(w.subrange(10, 20) =~= c.spec_pair(1).spec_words());
    assert(w.subrange(20, 30) =~= c.spec_pair(2).spec_words());
    assert(w.subrange(30, 40) =~= c.spec_pair(3).spec_words());
    assert(w.subrange(40, 50) =~= c.spec_pair(4).spec_words());
    assert(w.subrange(50, 60) =~= c.spec_pair(5).spec_words());
    assert(w.subrange(60, 70) =~= c.spec_pair(6).spec_words());
    assert(w.subrange(70, 80) =~= c.spec_pair(7).spec_words());
    assert forall|j: int| 0 <= j < 8 implies #[trigger] w.subrange(10 * j, 10 * j + 10) == c.spec_pair(j).spec_words() by {
        if j == 0 {} else if j == 1 {} else if j == 2 {} else if j == 3 {}
        else if j == 4 {} else if j == 5 {} else if j == 6 {} else {}
    }
}

/// Word `k` of link `p` in the file image.
proof fn lemma_pair_word(c: AddrCfg, j: int, k: int)
    requires
        0 <= j < 8,
        0 <= k < 10,
    ensures
        le16_at(c.spec_raw(), 2 * (10 * j + k)) == c.spec_pair(j).spec_words()[k],
{
    lemma_words_chunks(c);
    lemma_u16s_le_roundtrip(c.spec_words());
    let w = c.spec_words();
    assert(w.subrange(10 * j, 10 * j + 10)[k] == w[10 * j + k]);
    assert(le_u16s_at(c.spec_raw(), 0, 80)[10 * j + k] == w[10 * j + k]);
}

#[verifier::spinoff_prover]
proof fn lemma_link_layout(c: AddrCfg, n: int)
    requires
        0 <= n < 8,
    ensures
        forall|j: int|
            0 <= j < 4 ==> #[trigger] le16_at(c.spec_raw(), 2 * (10 * n + j))
                == c.spec_pair(n).srv_addr[j],
        le16_at(c.spec_raw(), 2 * (10 * n + 4)) == c.spec_pair(n).srv_port,
        forall|j: int|
            0 <= j < 4 ==> #[trigger] le16_at(c.spec_raw(), 2 * (10 * n + 5 + j))
                == c.spec_pair(n).dev_addr[j],
        le16_at(c.spec_raw(), 2 * (10 * n + 9)) == c.spec_pair(n).dev_port,
{
    let p = c.spec_pair(n);
    assert forall|j: int| 0 <= j < 4 implies #[trigger] le16_at(c.spec_raw(), 2 * (10 * n + j))
        == p.srv_addr[j] by {
        lemma_pair_word(c, n, j);
    }
    lemma_pair_word(c, n, 4);
    assert forall|j: int| 0 <= j < 4 implies #[trigger] le16_at(c.spec_raw(), 2 * (10 * n + 5 + j))
        == p.dev_addr[j] by {
        lemma_pair_word(c, n, 5 + j);
    }
    lemma_pair_word(c, n, 9);
}

/// Where each field of each link stands in the file image: link `i` of
/// beam 1 fills words `10 * i` to `10 * i + 9`, link `i` of beam 2 words
/// `40 + 10 * i` to `49 + 10 * i`; within a link, the four server address
/// words, the server port, the four device address words, the device port.
/// Word `n` is the little-endian pair of bytes `2 * n` and `2 * n + 1`.
#[verifier::spinoff_prover]
pub proof fn lemma_addr_cfg_layout(c: AddrCfg, i: int)
    requires
        0 <= i < 4,
    ensures
        forall|j: int|
            0 <= j < 4 ==> #[trigger] le16_at(c.spec_raw(), 2 * (10 * i + j)) == c.beam1[i].srv_addr[j],
        le16_at(c.spec_raw(), 2 * (10 * i + 4)) == c.beam1[i].srv_port,
        forall|j: int|
            0 <= j < 4 ==> #[trigger] le16_at(c.spec_raw(), 2 * (10 * i + 5 + j))
                == c.beam1[i].dev_addr[j],
        le16_at(c.spec_raw(), 2 * (10 * i + 9)) == c.beam1[i].dev_port,
        forall|j: int|
            0 <= j < 4 ==> #[trigger] le16_at(c.spec_raw(), 2 * (40 + 10 * i + j))
                == c.beam2[i].srv_addr[j],
        le16_at(c.spec_raw(), 2 * (40 + 10 * i + 4)) == c.beam2[i].srv_port,
        forall|j: int|
            0 <= j < 4 ==> #[trigger] le16_at(c.spec_raw(), 2 * (40 + 10 * i + 5 + j))
                == c.beam2[i].dev_addr[j],
        le16_at(c.spec_raw(), 2 * (40 + 10 * i + 9)) == c.beam2[i].dev_port,
{
    assert(c.spec_pair(i) == c.beam1[i]);
    assert(c.spec_pair(4 + i) == c.beam2[i]);
    lemma_link_layout(c, i);
    lemma_link_layout(c, 4 + i);
    assert(10 * (4 + i) == 40 + 10 * i);
}

/// The words of the file image determine the table.
pub proof fn lemma_addr_cfg_determined(c1: AddrCfg, c2: AddrCfg)
    requires
        c1.spec_words() == c2.spec_words(),
    ensures
        c1 == c2,
{
    lemma_words_chunks(c1);
    lemma_words_chunks(c2);
    assert forall|j: int| 0 <= j < 8 implies #[trigger] c1.spec_pair(j) == c2.spec_pair(j) by {
        assert(c1.spec_words().subrange(10 * j, 10 * j + 10) == c1.spec_pair(j).spec_words());
        assert(c2.spec_words().subrange(10 * j, 10 * j + 10) == c2.spec_pair(j).spec_words());
        lemma_pair_determined(c1.spec_pair(j), c2.spec_pair(j));
    }
    assert(c1.spec_pair(0) == c2.spec_pair(0));
    assert(c1.spec_pair(1) == c2.spec_pair(1));
    assert(c1.spec_pair(2) == c2.spec_pair(2));
    assert(c1.spec_pair(3) == c2.spec_pair(3));
    assert(c1.spec_pair(4) == c2.spec_pair(4));
    assert(c1.spec_pair(5) == c2.spec_pair(5));
    assert(c1.spec_pair(6) == c2.spec_pair(6));
    assert(c1.spec_pair(7) == c2.spec_pair(7));
    assert(c1.beam1 =~= c2.beam1);
    assert(c1.beam2 =~= c2.beam2);
}

/// Reading the table back from its file image gives the table.
pub proof fn lemma_addr_cfg_roundtrip(c: AddrCfg)
    ensures
        c.spec_raw().len() == ADDR_CFG_RAW_LEN,
        le_u16s_at(c.spec_raw(), 0, 80) == c.spec_words(),
{
    lemma_u16s_le_roundtrip(c.spec_words());
}

/// The table read from the file image of a table is that table.
pub proof fn lemma_addr_cfg_read_back(c: AddrCfg, r: AddrCfg)
    requires
        r.spec_words() == le_u16s_at(c.spec_raw(), 0, 80),
    ensures
        r == c,
{
    lemma_addr_cfg_roundtrip(c);
    lemma_addr_cfg_determined(r, c);
}

/// Writing out the table read from a file image gives that image back.
pub proof fn lemma_raw_roundtrip(b: Seq<u8>, c: AddrCfg)
    requires
        b.len() == ADDR_CFG_RAW_LEN,
        c.spec_words() == le_u16s_at(b, 0, 80),
    ensures
        c.spec_raw() == b,
{
    lemma_le_u16s_roundtrip(b, 80);
}

} // verus!
