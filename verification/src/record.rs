//! The wire format of the edge stream: one record per line, a commit id
//! followed by the ids of its parents, separated by single spaces.

use vstd::prelude::*;

verus! {

/// The byte strings held by a list of byte vectors.
pub open spec fn id_views(s: Seq<Vec<u8>>) -> Seq<Seq<u8>> {
    s.map_values(|v: Vec<u8>| v@)
}

/// One record of the edge stream: a commit and its parents, in wire order.
pub struct EdgeRecord {
    pub id: Vec<u8>,
    pub parents: Vec<Vec<u8>>,
}

/// The mathematical content of an [`EdgeRecord`].
pub struct EdgeRecordView {
    pub id: Seq<u8>,
    pub parents: Seq<Seq<u8>>,
}

impl View for EdgeRecord {
    type V = EdgeRecordView;

    open spec fn view(&self) -> EdgeRecordView {
        EdgeRecordView { id: self.id@, parents: id_views(self.parents@) }
    }
}

/// The error returned for a line that holds no leading commit id.  Such a
/// record breaks the input contract of the stream, and the whole computation
/// must be aborted: there is no safe partial result.
#[derive(Debug, PartialEq, Eq, Structural)]
pub struct MalformedRecord;

/// `s` split at every space byte.  Always at least one token; consecutive
/// spaces yield empty tokens.
pub open spec fn split_spaces(s: Seq<u8>) -> Seq<Seq<u8>>
    decreases s.len(),
{
    if s.len() == 0 {
        seq![Seq::<u8>::empty()]
    } else if s[0] == 32 {
        seq![Seq::<u8>::empty()] + split_spaces(s.skip(1))
    } else {
        let rest = split_spaces(s.skip(1));
        seq![seq![s[0]] + rest[0]] + rest.skip(1)
    }
}

pub proof fn lemma_split_spaces_len(s: Seq<u8>)
    ensures
        split_spaces(s).len() >= 1,
    decreases s.len(),
{
    if s.len() != 0 {
        lemma_split_spaces_len(s.skip(1));
    }
}

/// The record encoded by the line `s` (without its trailing newline): the
/// first token is the commit id, the rest are its parents.
pub open spec fn record_of(s: Seq<u8>) -> EdgeRecordView {
    EdgeRecordView { id: split_spaces(s)[0], parents: split_spaces(s).skip(1) }
}

/// The records encoded by a sequence of lines.
pub open spec fn records_of(lines: Seq<Vec<u8>>) -> Seq<EdgeRecordView> {
    lines.map_values(|l: Vec<u8>| record_of(l@))
}

/// Parses one line of the edge stream, split at single spaces, the leading
/// token the commit id.  Fails exactly when the line starts with a space or
/// is empty, that is when the record has no id.
pub fn parse_record(line: &[u8]) -> (r: Result<EdgeRecord, MalformedRecord>)
    ensures
        r is Ok <==> record_of(line@).id.len() > 0,
        r matches Ok(rec) ==> rec@ == record_of(line@),
{
    let mut cur: Vec<u8> = Vec::new();
    let mut rest: Vec<Vec<u8>> = Vec::new();
    let mut i: usize = line.len();
    proof {
        assert(line@.skip(line@.len() as int) =~= Seq::<u8>::empty());
    }
    while i > 0
        invariant
            i <= line.len(),
            split_spaces(line@.skip(i as int)).len() == 1 + rest@.len(),
            cur@ == split_spaces(line@.skip(i as int))[0],
            forall|t: int|
                0 <= t < rest@.len() ==> rest@[t]@ == split_spaces(line@.skip(i as int))[t + 1],
        decreases i,
    {
        let ghost prev = line@.skip(i as int);
        i = i - 1;
        proof {
            assert(line@.skip(i as int).skip(1) =~= prev);
            lemma_split_spaces_len(prev);
        }
        let b = line[i];
        if b == 32 {
            rest.insert(0, cur);
            cur = Vec::new();
        } else {
            cur.insert(0, b);
            assert(cur@ =~= seq![line@[i as int]] + split_spaces(prev)[0]);
            assert(forall|t: int| #![trigger rest@[t]]
                0 <= t < rest@.len() ==> split_spaces(line@.skip(i as int))[t + 1]
                    == split_spaces(prev)[t + 1]);
        }
    }
    proof {
        assert(line@.skip(0) =~= line@);
    }
    if cur.len() == 0 {
        return Err(MalformedRecord);
    }
    let rec = EdgeRecord { id: cur, parents: rest };
    proof {
        assert(rec@.parents =~= record_of(line@).parents);
    }
    Ok(rec)
}

} // verus!
