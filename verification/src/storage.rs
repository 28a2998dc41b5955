use vstd::prelude::*;
use crate::board::valid_key_char;
use crate::table::{Record, Table, cell_index, record_wf, records_wf, replies_sorted};

verus! {

/// The byte that encodes one canonical-key character in the table file.
pub open spec fn key_byte(c: char) -> u8 {
    if c == 'E' {
        69u8
    } else if c == 'C' {
        67u8
    } else {
        78u8
    }
}

/// The bytes of a whole canonical key.
pub open spec fn key_bytes(k: Seq<char>) -> Seq<u8> {
    Seq::new(k.len(), |i: int| key_byte(k[i]))
}

/// The ASCII digit that encodes one coordinate, which is always 0, 1 or 2.
pub open spec fn digit_byte(d: int) -> u8 {
    if d == 0 {
        48u8
    } else if d == 1 {
        49u8
    } else {
        50u8
    }
}

/// One reply as two digits, row then column.
pub open spec fn move_bytes(m: (usize, usize)) -> Seq<u8> {
    seq![digit_byte(m.0 as int), digit_byte(m.1 as int)]
}

/// The reply list joined by ':' (ASCII 58).
pub open spec fn replies_bytes(rs: Seq<(usize, usize)>) -> Seq<u8>
    decreases rs.len(),
{
    if rs.len() == 0 {
        Seq::empty()
    } else if rs.len() == 1 {
        move_bytes(rs[0])
    } else {
        move_bytes(rs[0]) + seq![58u8] + replies_bytes(rs.subrange(1, rs.len() as int))
    }
}

/// One file line: the key, a comma, the replies, a newline.
pub open spec fn record_bytes(r: Record) -> Seq<u8> {
    key_bytes(r.key@) + seq![44u8] + replies_bytes(r.replies@) + seq![10u8]
}

/// The lines of all records in order.
pub open spec fn records_bytes(t: Seq<Record>) -> Seq<u8>
    decreases t.len(),
{
    if t.len() == 0 {
        Seq::empty()
    } else {
        record_bytes(t[0]) + records_bytes(t.subrange(1, t.len() as int))
    }
}

/// The header line naming the two columns: "now,next_moves".
pub open spec fn header_bytes() -> Seq<u8> {
    seq![110u8, 111u8, 119u8, 44u8, 110u8, 101u8, 120u8, 116u8, 95u8, 109u8, 111u8, 118u8, 101u8, 115u8, 10u8]
}

/// The whole file: the header line, then one line per record.
pub open spec fn table_bytes(t: Seq<Record>) -> Seq<u8> {
    header_bytes() + records_bytes(t)
}

/// Appending one reply extends the encoding by a separator (except for the
/// first reply) and the reply's two digits.
pub proof fn lemma_replies_bytes_snoc(rs: Seq<(usize, usize)>, m: (usize, usize))
    ensures
        replies_bytes(rs.push(m)) == if rs.len() == 0 {
            move_bytes(m)
        } else {
            replies_bytes(rs) + seq![58u8] + move_bytes(m)
        },
    decreases rs.len(),
{
    let ext = rs.push(m);
    if rs.len() == 0 {
        assert(ext.len() == 1);
        assert(ext[0] == m);
    } else {
        let tail = rs.subrange(1, rs.len() as int);
        lemma_replies_bytes_snoc(tail, m);
        assert(ext.subrange(1, ext.len() as int) =~= tail.push(m));
        assert(ext[0] == rs[0]);
        if rs.len() == 1 {
            assert(replies_bytes(ext) =~= replies_bytes(rs) + seq![58u8] + move_bytes(m));
        } else {
            assert(replies_bytes(ext) =~= replies_bytes(rs) + seq![58u8] + move_bytes(m));
        }
    }
}

/// Appending one record extends the file body by exactly that record's line.
pub proof fn lemma_records_bytes_snoc(t: Seq<Record>, r: Record)
    ensures
        records_bytes(t.push(r)) == records_bytes(t) + record_bytes(r),
    decreases t.len(),
{
    let ext = t.push(r);
    if t.len() == 0 {
        assert(ext[0] == r);
        assert(ext.subrange(1, ext.len() as int) =~= Seq::<Record>::empty());
        assert(records_bytes(ext.subrange(1, ext.len() as int)) == Seq::<u8>::empty());
        assert(records_bytes(ext) == record_bytes(r) + Seq::<u8>::empty());
        assert(records_bytes(t) == Seq::<u8>::empty());
        assert(records_bytes(ext) =~= records_bytes(t) + record_bytes(r));
    } else {
        lemma_records_bytes_snoc(t.subrange(1, t.len() as int), r);
        assert(ext.subrange(1, ext.len() as int) =~= t.subrange(1, t.len() as int).push(r));
        assert(ext[0] == t[0]);
        assert(records_bytes(ext) =~= records_bytes(t) + record_bytes(r));
    }
}

/// The length of an encoded reply list: three bytes per reply, less the
/// missing final separator.
proof fn lemma_replies_bytes_len(rs: Seq<(usize, usize)>)
    ensures
        rs.len() == 0 ==> replies_bytes(rs).len() == 0,
        rs.len() > 0 ==> replies_bytes(rs).len() == 3 * rs.len() - 1,
    decreases rs.len(),
{
    if rs.len() > 1 {
        lemma_replies_bytes_len(rs.subrange(1, rs.len() as int));
    }
}

/// An encoded reply list never holds a newline byte.
proof fn lemma_replies_bytes_no_newline(rs: Seq<(usize, usize)>)
    ensures
        forall|q: int| 0 <= q < replies_bytes(rs).len() ==> replies_bytes(rs)[q] != 10u8,
    decreases rs.len(),
{
    if rs.len() > 1 {
        let tail = rs.subrange(1, rs.len() as int);
        lemma_replies_bytes_no_newline(tail);
        assert forall|q: int| 0 <= q < replies_bytes(rs).len() implies replies_bytes(rs)[q]
            != 10u8 by {
            if q >= 3 {
                assert(replies_bytes(rs)[q] == replies_bytes(tail)[q - 3]);
            }
        }
    }
}

/// Reply lists of in-range coordinates encode injectively.
proof fn lemma_replies_bytes_injective(r1: Seq<(usize, usize)>, r2: Seq<(usize, usize)>)
    requires
        forall|k: int| 0 <= k < r1.len() ==> (#[trigger] r1[k]).0 < 3 && r1[k].1 < 3,
        forall|k: int| 0 <= k < r2.len() ==> (#[trigger] r2[k]).0 < 3 && r2[k].1 < 3,
        replies_bytes(r1) == replies_bytes(r2),
    ensures
        r1 == r2,
    decreases r1.len(),
{
    lemma_replies_bytes_len(r1);
    lemma_replies_bytes_len(r2);
    if r1.len() == 0 {
        assert(r2.len() == 0);
        assert(r1 =~= r2);
    } else {
        assert(r2.len() > 0);
        assert(r1.len() == r2.len());
        assert(replies_bytes(r1)[0] == digit_byte(r1[0].0 as int));
        assert(replies_bytes(r1)[1] == digit_byte(r1[0].1 as int));
        assert(replies_bytes(r2)[0] == digit_byte(r2[0].0 as int));
        assert(replies_bytes(r2)[1] == digit_byte(r2[0].1 as int));
        assert(r1[0] == r2[0]);
        if r1.len() == 1 {
            assert(r1 =~= r2);
        } else {
            let t1 = r1.subrange(1, r1.len() as int);
            let t2 = r2.subrange(1, r2.len() as int);
            assert(replies_bytes(t1) =~= replies_bytes(r1).subrange(
                3,
                replies_bytes(r1).len() as int,
            ));
            assert(replies_bytes(t2) =~= replies_bytes(r2).subrange(
                3,
                replies_bytes(r2).len() as int,
            ));
            lemma_replies_bytes_injective(t1, t2);
            assert forall|q: int| 0 <= q < r1.len() implies r1[q] == r2[q] by {
                if q > 0 {
                    assert(r1[q] == t1[q - 1]);
                    assert(r2[q] == t2[q - 1]);
                }
            }
            assert(r1 =~= r2);
        }
    }
}

/// Two well-formed record lines at the head of the same byte stream are the
/// same line: the first newline pins where the line ends, so the keys, the
/// replies and the remainders all agree.
proof fn lemma_record_peel(a: Record, b: Record, xa: Seq<u8>, xb: Seq<u8>)
    requires
        record_wf(a),
        record_wf(b),
        record_bytes(a) + xa == record_bytes(b) + xb,
    ensures
        a.key@ == b.key@,
        a.replies@ == b.replies@,
        record_bytes(a) == record_bytes(b),
        xa == xb,
{
    let w = record_bytes(a) + xa;
    assert(w == record_bytes(b) + xb);
    let ra = replies_bytes(a.replies@);
    let rb = replies_bytes(b.replies@);
    lemma_replies_bytes_len(a.replies@);
    lemma_replies_bytes_len(b.replies@);
    lemma_replies_bytes_no_newline(a.replies@);
    lemma_replies_bytes_no_newline(b.replies@);
    let la = ra.len() as int;
    let lb = rb.len() as int;
    assert(record_bytes(a).len() == 11 + la);
    assert(record_bytes(b).len() == 11 + lb);
    assert forall|q: int| 0 <= q < 11 + la implies w[q] == record_bytes(a)[q] by {}
    assert forall|q: int| 0 <= q < 11 + lb implies w[q] == record_bytes(b)[q] by {}
    if la < lb {
        assert(w[10 + la] == record_bytes(a)[10 + la] == 10u8);
        assert(record_bytes(b)[10 + la] == rb[la]);
        assert(rb[la] != 10u8);
        assert(false);
    }
    if lb < la {
        assert(w[10 + lb] == record_bytes(b)[10 + lb] == 10u8);
        assert(record_bytes(a)[10 + lb] == ra[lb]);
        assert(ra[lb] != 10u8);
        assert(false);
    }
    assert(la == lb);
    assert(a.key@ =~= b.key@) by {
        assert forall|q: int| 0 <= q < 9 implies a.key@[q] == b.key@[q] by {
            assert(w[q] == key_bytes(a.key@)[q]);
            assert(w[q] == key_bytes(b.key@)[q]);
            assert(key_byte(a.key@[q]) == key_byte(b.key@[q]));
            assert(valid_key_char(a.key@[q]) && valid_key_char(b.key@[q]));
        }
    }
    assert(ra =~= rb) by {
        assert forall|q: int| 0 <= q < la implies ra[q] == rb[q] by {
            assert(w[10 + q] == record_bytes(a)[10 + q]);
            assert(w[10 + q] == record_bytes(b)[10 + q]);
            assert(record_bytes(a)[10 + q] == ra[q]);
            assert(record_bytes(b)[10 + q] == rb[q]);
        }
    }
    lemma_replies_bytes_injective(a.replies@, b.replies@);
    assert(record_bytes(a) == record_bytes(b));
    assert(xa =~= w.subrange(11 + la, w.len() as int));
    assert(xb =~= w.subrange(11 + lb, w.len() as int));
}

/// Well-formed record lists encode injectively: the file determines the
/// records.
proof fn lemma_records_bytes_injective(t1: Seq<Record>, t2: Seq<Record>)
    requires
        forall|i: int| 0 <= i < t1.len() ==> record_wf(#[trigger] t1[i]),
        forall|i: int| 0 <= i < t2.len() ==> record_wf(#[trigger] t2[i]),
        records_bytes(t1) == records_bytes(t2),
    ensures
        t1.len() == t2.len(),
        forall|i: int|
            0 <= i < t1.len() ==> (#[trigger] t1[i]).key@ == t2[i].key@ && t1[i].replies@
                == t2[i].replies@,
    decreases t1.len(),
{
    if t1.len() == 0 {
        if t2.len() > 0 {
            lemma_replies_bytes_len(t2[0].replies@);
            assert(records_bytes(t2).len() >= record_bytes(t2[0]).len());
            assert(false);
        }
    } else if t2.len() == 0 {
        lemma_replies_bytes_len(t1[0].replies@);
        assert(records_bytes(t1).len() >= record_bytes(t1[0]).len());
        assert(false);
    } else {
        let rest1 = t1.subrange(1, t1.len() as int);
        let rest2 = t2.subrange(1, t2.len() as int);
        lemma_record_peel(t1[0], t2[0], records_bytes(rest1), records_bytes(rest2));
        lemma_records_bytes_injective(rest1, rest2);
        assert forall|i: int|
            0 <= i < t1.len() implies (#[trigger] t1[i]).key@ == t2[i].key@ && t1[i].replies@
            == t2[i].replies@ by {
            if i > 0 {
                assert(t1[i] == rest1[i - 1]);
                assert(t2[i] == rest2[i - 1]);
            }
        }
    }
}

/// Serialization is lossless: two well-formed tables with the same file
/// bytes carry the same keys and the same reply lists, record for record.
/// Loading a file therefore recovers exactly the table it was written from.
pub proof fn lemma_table_bytes_injective(t1: Seq<Record>, t2: Seq<Record>)
    requires
        forall|i: int| 0 <= i < t1.len() ==> record_wf(#[trigger] t1[i]),
        forall|i: int| 0 <= i < t2.len() ==> record_wf(#[trigger] t2[i]),
        table_bytes(t1) == table_bytes(t2),
    ensures
        t1.len() == t2.len(),
        forall|i: int|
            0 <= i < t1.len() ==> (#[trigger] t1[i]).key@ == t2[i].key@ && t1[i].replies@
                == t2[i].replies@,
{
    assert(records_bytes(t1) =~= table_bytes(t1).subrange(15, table_bytes(t1).len() as int));
    assert(records_bytes(t2) =~= table_bytes(t2).subrange(15, table_bytes(t2).len() as int));
    lemma_records_bytes_injective(t1, t2);
}

/// The digit byte of one coordinate.
fn digit_of(d: usize) -> (b: u8)
    requires
        d < 3,
    ensures
        b == digit_byte(d as int),
{
    if d == 0 {
        48
    } else if d == 1 {
        49
    } else {
        50
    }
}

/// The fifteen bytes of the header line.
fn header_vec() -> (h: Vec<u8>)
    ensures
        h@ == header_bytes(),
{
    let mut h: Vec<u8> = Vec::new();
    h.push(110);
    h.push(111);
    h.push(119);
    h.push(44);
    h.push(110);
    h.push(101);
    h.push(120);
    h.push(116);
    h.push(95);
    h.push(109);
    h.push(111);
    h.push(118);
    h.push(101);
    h.push(115);
    h.push(10);
    proof {
        assert(h@ =~= header_bytes());
    }
    h
}

impl Table {
    /// Serialize the whole table to the delimited text format: a header
    /// line, then one line per record with the two fields separated by a
    /// comma. Writing the whole file afresh (rather than appending to an
    /// old one) keeps regeneration idempotent.
    pub fn to_bytes(&self) -> (out: Vec<u8>)
        requires
            self.wf(),
        ensures
            out@ == table_bytes(self.records@),
    {
        let mut out: Vec<u8> = header_vec();
        let mut i: usize = 0;
        while i < self.records.len()
            invariant
                self.wf(),
                i <= self.records@.len(),
                out@ == table_bytes(self.records@.subrange(0, i as int)),
            decreases self.records@.len() - i,
        {
            let ghost pre = out@;
            let rec = &self.records[i];
            let mut j: usize = 0;
            while j < 9
                invariant
                    self.wf(),
                    i < self.records@.len(),
                    rec == self.records@[i as int],
                    record_wf(*rec),
                    j <= 9,
                    out@.len() == pre.len() + j,
                    out@.subrange(0, pre.len() as int) == pre,
                    forall|jj: int|
                        0 <= jj < j ==> out@[pre.len() + jj] == key_byte(#[trigger] rec.key@[jj]),
                decreases 9 - j,
            {
                let c = rec.key.as_str().get_char(j);
                if c == 'E' {
                    out.push(69);
                } else if c == 'C' {
                    out.push(67);
                } else {
                    out.push(78);
                }
                j += 1;
            }
            proof {
                assert(out@ =~= pre + key_bytes(rec.key@));
            }
            let ghost pre_comma = out@;
            out.push(44);
            let ghost pre_replies = out@;
            let mut k: usize = 0;
            while k < rec.replies.len()
                invariant
                    self.wf(),
                    i < self.records@.len(),
                    rec == self.records@[i as int],
                    record_wf(*rec),
                    k <= rec.replies@.len(),
                    out@ == pre_replies + replies_bytes(rec.replies@.subrange(0, k as int)),
                decreases rec.replies@.len() - k,
            {
                let ghost before = rec.replies@.subrange(0, k as int);
                if k > 0 {
                    out.push(58);
                }
                let m = rec.replies[k];
                out.push(digit_of(m.0));
                out.push(digit_of(m.1));
                proof {
                    lemma_replies_bytes_snoc(before, rec.replies@[k as int]);
                    assert(rec.replies@.subrange(0, k + 1) =~= before.push(rec.replies@[k as int]));
                    assert(out@ =~= pre_replies + replies_bytes(rec.replies@.subrange(0, k + 1)));
                }
                k += 1;
            }
            out.push(10);
            proof {
                assert(rec.replies@.subrange(0, rec.replies@.len() as int) =~= rec.replies@);
                assert(out@ =~= pre + record_bytes(*rec));
                lemma_records_bytes_snoc(self.records@.subrange(0, i as int), *rec);
                assert(self.records@.subrange(0, i + 1) =~= self.records@.subrange(
                    0,
                    i as int,
                ).push(self.records@[i as int]));
                assert(out@ =~= table_bytes(self.records@.subrange(0, i + 1)));
            }
            i += 1;
        }
        proof {
            assert(self.records@.subrange(0, self.records@.len() as int) =~= self.records@);
        }
        out
    }
}

/// Why a table file cannot be loaded. Any of these aborts the whole load:
/// a partial table is never served.
#[derive(PartialEq, Eq, Structural, Copy, Clone, Debug)]
pub enum ParseError {
    /// The header line is missing or does not name the two columns.
    BadHeader,
    /// A position key is not nine E, C or N characters.
    BadKey,
    /// A missing comma after a key, or a line not ended by a newline.
    BadSeparator,
    /// A reply coordinate is not a digit between 0 and 2.
    BadMove,
    /// Replies not in strictly ascending row-major order.
    OutOfOrderMove,
    /// The same position key appears on two lines.
    DuplicateKey,
}

impl Table {
    /// Load a table from the bytes of its delimited text file. A malformed
    /// or duplicated record aborts loading: on success the accepted bytes
    /// are exactly the serialization of the returned table, and loading
    /// succeeds on exactly the files some well-formed table serializes to,
    /// so loading a file written by `to_bytes` recovers the table it was
    /// written from.
    #[verifier::rlimit(100)]
    pub fn from_bytes(data: &Vec<u8>) -> (r: Result<Table, ParseError>)
        ensures
            r matches Ok(t) ==> t.wf() && data@ == table_bytes(t.records@),
            (exists|t2: Seq<Record>| records_wf(t2) && data@ == table_bytes(t2)) ==> r.is_ok(),
    {
        let ghost ok_input = exists|t2: Seq<Record>| records_wf(t2) && data@ == table_bytes(t2);
        let ghost gt: Seq<Record> = if ok_input {
            choose|t2: Seq<Record>| records_wf(t2) && data@ == table_bytes(t2)
        } else {
            Seq::empty()
        };
        let hdr = header_vec();
        if data.len() < 15 {
            proof {
                if ok_input {
                    assert(data@.len() == 15 + records_bytes(gt).len());
                    assert(false);
                }
            }
            return Err(ParseError::BadHeader);
        }
        let mut j: usize = 0;
        while j < 15
            invariant
                data@.len() >= 15,
                hdr@ == header_bytes(),
                j <= 15,
                forall|jj: int| 0 <= jj < j ==> data@[jj] == header_bytes()[jj],
                ok_input == (exists|t2: Seq<Record>|
                    records_wf(t2) && data@ == table_bytes(t2)),
                ok_input ==> records_wf(gt) && data@ == table_bytes(gt),
            decreases 15 - j,
        {
            if data[j] != hdr[j] {
                proof {
                    if ok_input {
                        assert(data@[j as int] == header_bytes()[j as int]);
                        assert(false);
                    }
                }
                return Err(ParseError::BadHeader);
            }
            j += 1;
        }
        let mut records: Vec<Record> = Vec::new();
        let mut i: usize = 15;
        proof {
            assert(records_bytes(records@) == Seq::<u8>::empty());
            assert(data@.subrange(0, 15) =~= table_bytes(records@));
            if ok_input {
                assert(gt.subrange(0, gt.len() as int) =~= gt);
                assert(data@.subrange(15, data@.len() as int) =~= records_bytes(gt));
            }
        }
        while i < data.len()
            invariant
                15 <= i <= data@.len(),
                data@.subrange(0, i as int) == table_bytes(records@),
                forall|x: int| 0 <= x < records@.len() ==> record_wf(#[trigger] records@[x]),
                forall|x: int, y: int|
                    0 <= x < y < records@.len() ==> records@[x].key@ != records@[y].key@,
                ok_input == (exists|t2: Seq<Record>|
                    records_wf(t2) && data@ == table_bytes(t2)),
                ok_input ==> records_wf(gt) && data@ == table_bytes(gt),
                ok_input ==> records@.len() <= gt.len(),
                ok_input ==> data@.subrange(i as int, data@.len() as int) == records_bytes(
                    gt.subrange(records@.len() as int, gt.len() as int),
                ),
                ok_input ==> forall|x: int|
                    0 <= x < records@.len() ==> (#[trigger] records@[x]).key@ == gt[x].key@,
            decreases data@.len() - i,
        {
            let ghost k: int = records@.len() as int;
            let ghost trec = gt[records@.len() as int];
            let ghost tmoves = trec.replies@;
            proof {
                if ok_input {
                    if k == gt.len() {
                        assert(gt.subrange(k, gt.len() as int) =~= Seq::<Record>::empty());
                        assert(records_bytes(gt.subrange(k, gt.len() as int))
                            == Seq::<u8>::empty());
                        assert(false);
                    }
                    assert(gt.subrange(k, gt.len() as int)[0] == gt[k]);
                    assert(gt.subrange(k, gt.len() as int).subrange(
                        1,
                        gt.len() - k,
                    ) =~= gt.subrange(k + 1, gt.len() as int));
                    assert(records_bytes(gt.subrange(k, gt.len() as int)) == record_bytes(trec)
                        + records_bytes(gt.subrange(k + 1, gt.len() as int)));
                    assert(record_wf(trec));
                    lemma_replies_bytes_len(tmoves);
                }
            }
            if data.len() - i < 10 {
                proof {
                    if ok_input {
                        assert(data@.subrange(i as int, data@.len() as int).len()
                            >= record_bytes(trec).len());
                        assert(false);
                    }
                }
                return Err(ParseError::BadKey);
            }
            let mut key = String::new();
            let mut kj: usize = 0;
            proof {
                reveal_strlit("E");
                reveal_strlit("C");
                reveal_strlit("N");
            }
            while kj < 9
                invariant
                    i + 10 <= data.len(),
                    kj <= 9,
                    key@.len() == kj,
                    forall|jj: int|
                        0 <= jj < kj ==> valid_key_char(#[trigger] key@[jj]) && key_byte(key@[jj])
                            == data@[i + jj],
                    ok_input == (exists|t2: Seq<Record>|
                        records_wf(t2) && data@ == table_bytes(t2)),
                    ok_input ==> records_wf(gt) && data@ == table_bytes(gt),
                    ok_input ==> records@.len() < gt.len() && trec == gt[records@.len() as int]
                        && record_wf(trec),
                    ok_input ==> data@.subrange(i as int, data@.len() as int) == record_bytes(
                        trec,
                    ) + records_bytes(gt.subrange(records@.len() as int + 1, gt.len() as int)),
                    ok_input ==> forall|jj: int| 0 <= jj < kj ==> key@[jj] == trec.key@[jj],
                decreases 9 - kj,
            {
                proof {
                    if ok_input {
                        assert(data@[i + kj] == data@.subrange(
                            i as int,
                            data@.len() as int,
                        )[kj as int]);
                        assert(data@[i + kj] == record_bytes(trec)[kj as int]);
                        assert(record_bytes(trec)[kj as int] == key_bytes(trec.key@)[kj as int]);
                        assert(data@[i + kj] == key_byte(trec.key@[kj as int]));
                        assert(valid_key_char(trec.key@[kj as int]));
                    }
                }
                let b = data[i + kj];
                if b == 69 {
                    key.append("E");
                } else if b == 67 {
                    key.append("C");
                } else if b == 78 {
                    key.append("N");
                } else {
                    proof {
                        if ok_input {
                            assert(false);
                        }
                    }
                    return Err(ParseError::BadKey);
                }
                proof {
                    reveal_strlit("E");
                    reveal_strlit("C");
                    reveal_strlit("N");
                }
                kj += 1;
            }
            proof {
                assert(key_bytes(key@) =~= data@.subrange(i as int, i + 9));
                if ok_input {
                    assert(key@ =~= trec.key@);
                }
            }
            if data[i + 9] != 44 {
                proof {
                    if ok_input {
                        assert(data@[i + 9] == data@.subrange(i as int, data@.len() as int)[9]);
                        assert(data@[i + 9] == record_bytes(trec)[9]);
                        assert(false);
                    }
                }
                return Err(ParseError::BadSeparator);
            }
            let mut replies: Vec<(usize, usize)> = Vec::new();
            let ghost rstart: int = i + 10;
            let mut p: usize = i + 10;
            let mut done = false;
            proof {
                if ok_input {
                    assert(tmoves.len() > 0);
                    let rb = replies_bytes(tmoves);
                    let restb = records_bytes(gt.subrange(
                        records@.len() as int + 1,
                        gt.len() as int,
                    ));
                    assert(data@.subrange(i as int, data@.len() as int) == record_bytes(trec)
                        + restb);
                    assert(record_bytes(trec).len() == 11 + rb.len());
                    assert forall|q: int| 0 <= q < data@.len() - (i + 10) implies data@[i + 10
                        + q] == (rb + seq![10u8] + restb)[q] by {
                        assert(data@[i + 10 + q] == data@.subrange(
                            i as int,
                            data@.len() as int,
                        )[10 + q]);
                        if q < rb.len() {
                            assert((record_bytes(trec) + restb)[10 + q] == record_bytes(
                                trec,
                            )[10 + q]);
                            assert(record_bytes(trec)[10 + q] == rb[q]);
                        } else if q == rb.len() {
                            assert((record_bytes(trec) + restb)[10 + q] == record_bytes(
                                trec,
                            )[10 + q]);
                            assert(record_bytes(trec)[10 + q] == 10u8);
                        } else {
                            assert((record_bytes(trec) + restb)[10 + q] == restb[q - rb.len()
                                - 1]);
                        }
                    }
                    assert(data@.subrange(rstart, data@.len() as int) =~= rb + seq![10u8]
                        + restb);
                    assert(tmoves.subrange(0, 0) =~= Seq::<(usize, usize)>::empty());
                    assert(tmoves.subrange(0, tmoves.len() as int) =~= tmoves);
                }
            }
            while !done
                invariant
                    rstart == i + 10,
                    i + 10 <= p <= data@.len(),
                    !done ==> replies@.len() == 0 ==> p == i + 10,
                    !done ==> replies@.len() > 0 ==> data@.subrange(rstart, p as int)
                        == replies_bytes(replies@) + seq![58u8],
                    done ==> replies@.len() > 0 && data@.subrange(rstart, p as int)
                        == replies_bytes(replies@) + seq![10u8],
                    forall|x: int|
                        0 <= x < replies@.len() ==> (#[trigger] replies@[x]).0 < 3
                            && replies@[x].1 < 3,
                    replies_sorted(replies@),
                    ok_input == (exists|t2: Seq<Record>|
                        records_wf(t2) && data@ == table_bytes(t2)),
                    ok_input ==> records_wf(gt) && data@ == table_bytes(gt),
                    ok_input ==> records@.len() < gt.len() && trec == gt[records@.len() as int]
                        && record_wf(trec) && tmoves == trec.replies@ && tmoves.len() > 0,
                    ok_input ==> key@ == trec.key@,
                    ok_input ==> replies@.len() <= tmoves.len() && replies@ == tmoves.subrange(
                        0,
                        replies@.len() as int,
                    ),
                    ok_input ==> !done ==> replies@.len() < tmoves.len() && data@.subrange(
                        p as int,
                        data@.len() as int,
                    ) == replies_bytes(tmoves.subrange(replies@.len() as int, tmoves.len() as int))
                        + seq![10u8] + records_bytes(gt.subrange(
                        records@.len() as int + 1,
                        gt.len() as int,
                    )),
                    ok_input ==> done ==> replies@ == tmoves && data@.subrange(
                        p as int,
                        data@.len() as int,
                    ) == records_bytes(gt.subrange(records@.len() as int + 1, gt.len() as int)),
                decreases data@.len() - p,
            {
                let ghost k2: int = replies@.len() as int;
                let ghost trest = tmoves.subrange(k2, tmoves.len() as int);
                proof {
                    if ok_input {
                        lemma_replies_bytes_len(trest);
                        assert(trest.len() > 0);
                        assert(trest[0] == tmoves[k2]);
                        assert(trest[0].0 < 3 && trest[0].1 < 3);
                        assert(replies_bytes(trest)[0] == digit_byte(trest[0].0 as int));
                        assert(replies_bytes(trest)[1] == digit_byte(trest[0].1 as int));
                        assert(data@[p as int] == data@.subrange(p as int, data@.len() as int)[0]);
                        assert(data@[p + 1] == data@.subrange(p as int, data@.len() as int)[1]);
                        assert(data@[p as int] == digit_byte(trest[0].0 as int));
                        assert(data@[p + 1] == digit_byte(trest[0].1 as int));
                        assert(data@[p + 2] == data@.subrange(p as int, data@.len() as int)[2]);
                        if trest.len() == 1 {
                            assert(replies_bytes(trest).len() == 2);
                            assert(data@[p + 2] == 10u8);
                        } else {
                            assert(replies_bytes(trest)[2] == 58u8);
                            assert(data@[p + 2] == 58u8);
                        }
                    }
                }
                if data.len() - p < 3 {
                    proof {
                        if ok_input {
                            assert(data@.subrange(p as int, data@.len() as int).len() >= 3);
                            assert(false);
                        }
                    }
                    return Err(ParseError::BadSeparator);
                }
                let b0 = data[p];
                let b1 = data[p + 1];
                let row: usize;
                if b0 == 48 {
                    row = 0;
                } else if b0 == 49 {
                    row = 1;
                } else if b0 == 50 {
                    row = 2;
                } else {
                    proof {
                        if ok_input {
                            assert(false);
                        }
                    }
                    return Err(ParseError::BadMove);
                }
                let col: usize;
                if b1 == 48 {
                    col = 0;
                } else if b1 == 49 {
                    col = 1;
                } else if b1 == 50 {
                    col = 2;
                } else {
                    proof {
                        if ok_input {
                            assert(false);
                        }
                    }
                    return Err(ParseError::BadMove);
                }
                let mv = (row, col);
                proof {
                    assert(move_bytes(mv) =~= data@.subrange(p as int, p + 2));
                    if ok_input {
                        assert(mv == trest[0]);
                    }
                }
                if replies.len() > 0 {
                    let last = replies[replies.len() - 1];
                    if last.0 * 3 + last.1 >= row * 3 + col {
                        proof {
                            if ok_input {
                                assert(last == tmoves[k2 - 1]);
                                assert(cell_index(tmoves[k2 - 1]) < cell_index(tmoves[k2]));
                                assert(false);
                            }
                        }
                        return Err(ParseError::OutOfOrderMove);
                    }
                }
                let ghost old_replies = replies@;
                replies.push(mv);
                proof {
                    lemma_replies_bytes_snoc(old_replies, mv);
                    assert(replies_sorted(replies@)) by {
                        assert forall|x1: int, x2: int|
                            0 <= x1 < x2 < replies@.len() implies cell_index(
                            #[trigger] replies@[x1],
                        ) < cell_index(#[trigger] replies@[x2]) by {
                            if x2 == replies@.len() - 1 && old_replies.len() > 0 {
                                assert(replies@[x2] == mv);
                                if x1 < old_replies.len() - 1 {
                                    assert(cell_index(old_replies[x1]) < cell_index(
                                        old_replies[old_replies.len() - 1],
                                    ));
                                }
                            }
                        }
                    }
                    if old_replies.len() == 0 {
                        assert(data@.subrange(rstart, p + 2) =~= replies_bytes(replies@));
                    } else {
                        assert(data@.subrange(rstart, p + 2) =~= replies_bytes(old_replies)
                            + seq![58u8] + move_bytes(mv));
                        assert(data@.subrange(rstart, p + 2) == replies_bytes(replies@));
                    }
                    if ok_input {
                        assert(replies@ =~= tmoves.subrange(0, k2 + 1));
                    }
                }
                let sep = data[p + 2];
                if sep == 58 {
                    p += 3;
                    proof {
                        assert(data@.subrange(rstart, p as int) =~= replies_bytes(replies@)
                            + seq![58u8]);
                        if ok_input {
                            assert(trest.len() > 1);
                            assert(trest.subrange(1, trest.len() as int) =~= tmoves.subrange(
                                k2 + 1,
                                tmoves.len() as int,
                            ));
                            let rb2 = replies_bytes(
                                tmoves.subrange(k2 + 1, tmoves.len() as int),
                            );
                            let restb = records_bytes(gt.subrange(
                                records@.len() as int + 1,
                                gt.len() as int,
                            ));
                            assert(replies_bytes(trest) == move_bytes(trest[0]) + seq![58u8]
                                + rb2);
                            assert(replies_bytes(trest).len() == 3 + rb2.len());
                            assert(data@.subrange(p - 3, data@.len() as int) == replies_bytes(
                                trest,
                            ) + seq![10u8] + restb);
                            assert forall|q: int| 0 <= q < data@.len() - p implies data@[p + q]
                                == (rb2 + seq![10u8] + restb)[q] by {
                                assert(data@[p + q] == data@.subrange(
                                    p - 3,
                                    data@.len() as int,
                                )[q + 3]);
                                if q < rb2.len() {
                                    assert((replies_bytes(trest) + seq![10u8] + restb)[q + 3]
                                        == replies_bytes(trest)[q + 3]);
                                    assert(replies_bytes(trest)[q + 3] == rb2[q]);
                                } else if q == rb2.len() {
                                    assert((replies_bytes(trest) + seq![10u8] + restb)[q + 3]
                                        == 10u8);
                                } else {
                                    assert((replies_bytes(trest) + seq![10u8] + restb)[q + 3]
                                        == restb[q - rb2.len() - 1]);
                                }
                            }
                            assert(data@.subrange(p as int, data@.len() as int) =~= rb2
                                + seq![10u8] + restb);
                        }
                    }
                } else if sep == 10 {
                    p += 3;
                    done = true;
                    proof {
                        assert(data@.subrange(rstart, p as int) =~= replies_bytes(replies@)
                            + seq![10u8]);
                        if ok_input {
                            assert(trest.len() == 1);
                            assert(replies@ =~= tmoves);
                            let restb = records_bytes(gt.subrange(
                                records@.len() as int + 1,
                                gt.len() as int,
                            ));
                            assert(replies_bytes(trest).len() == 2);
                            assert(data@.subrange(p - 3, data@.len() as int) == replies_bytes(
                                trest,
                            ) + seq![10u8] + restb);
                            assert forall|q: int| 0 <= q < data@.len() - p implies data@[p + q]
                                == restb[q] by {
                                assert(data@[p + q] == data@.subrange(
                                    p - 3,
                                    data@.len() as int,
                                )[q + 3]);
                                assert((replies_bytes(trest) + seq![10u8] + restb)[q + 3]
                                    == restb[q]);
                            }
                            assert(data@.subrange(p as int, data@.len() as int) =~= restb);
                        }
                    }
                } else {
                    proof {
                        if ok_input {
                            assert(false);
                        }
                    }
                    return Err(ParseError::BadSeparator);
                }
            }
            if crate::table::table_has_key(&records, &key) {
                proof {
                    if ok_input {
                        let x = choose|x: int|
                            0 <= x < records@.len() && (#[trigger] records@[x]).key@ == key@;
                        assert(records@[x].key@ == gt[x].key@);
                        assert(gt[x].key@ == gt[k].key@);
                        assert(false);
                    }
                }
                return Err(ParseError::DuplicateKey);
            }
            let rec = Record { key, replies };
            let ghost old_records = records@;
            records.push(rec);
            proof {
                lemma_records_bytes_snoc(old_records, records@[records@.len() - 1]);
                let recg = records@[records@.len() - 1];
                assert(record_wf(recg));
                let kb = key_bytes(recg.key@);
                let rb = replies_bytes(recg.replies@);
                assert(kb.len() == 9);
                assert(data@.subrange(i as int, i + 9) == kb);
                assert(data@.subrange(rstart, p as int) == rb + seq![10u8]);
                assert(rb.len() == p - rstart - 1);
                assert forall|q: int| 0 <= q < p - i implies data@[i + q] == record_bytes(recg)[q] by {
                    if q < 9 {
                        assert(data@[i + q] == data@.subrange(i as int, i + 9)[q]);
                    } else if q == 9 {
                    } else {
                        assert(data@[i + q] == data@.subrange(rstart, p as int)[q - 10]);
                        assert(data@.subrange(rstart, p as int)[q - 10] == (rb + seq![10u8])[q
                            - 10]);
                    }
                }
                assert(data@.subrange(i as int, p as int) =~= record_bytes(recg));
                assert(data@.subrange(0, p as int) =~= data@.subrange(0, i as int)
                    + data@.subrange(i as int, p as int));
                assert(data@.subrange(0, p as int) =~= table_bytes(records@));
                if ok_input {
                    assert(recg.key@ == gt[k].key@);
                    assert forall|x: int|
                        0 <= x < records@.len() implies (#[trigger] records@[x]).key@
                        == gt[x].key@ by {
                        if x < k {
                            assert(records@[x] == old_records[x]);
                        }
                    }
                }
            }
            i = p;
        }
        proof {
            assert(data@.subrange(0, data@.len() as int) =~= data@);
        }
        Ok(Table { records })
    }
}

} // verus!
