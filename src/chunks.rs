use vstd::prelude::*;

verus! {

/// No byte `c` stands in `s` from position `from` up to, but not including,
/// its last byte.
pub open spec fn clear_before_end(s: Seq<u8>, c: u8, from: int) -> bool {
    forall|j: int| from <= j < s.len() - 1 ==> s[j] != c
}

/// Splits after the first `chr` found at or after `offset`, keeping `chr` in
/// the first part. When `offset` lies past the data, the first part is all of
/// it; when no `chr` follows `offset`, the result is `None`.
pub fn split_after_offset(chr: u8, data: &[u8], offset: usize) -> (r: Option<(&[u8], &[u8])>)
    ensures
        offset >= data@.len() ==> (r matches Some((a, b)) && a@ == data@ && b@.len() == 0),
        offset < data@.len() ==> match r {
            None => forall|j: int| offset <= j < data@.len() ==> data@[j] != chr,
            Some((a, b)) => {
                &&& a@.len() > offset
                &&& a@.last() == chr
                &&& clear_before_end(a@, chr, offset as int)
                &&& a@ + b@ == data@
            },
        },
{
    if offset >= data.len() {
        let empty = &data[data.len()..data.len()];
        assert(data@.subrange(0, data@.len() as int) =~= data@);
        return Some((data, empty));
    }
    let tail = &data[offset..data.len()];
    match memchr::memchr(chr, tail) {
        None => {
            assert forall|j: int| offset <= j < data@.len() implies data@[j] != chr by {
                assert(tail@[j - offset] == data@[j]);
            }
            None
        },
        Some(n) => {
            let (a, b) = data.split_at(offset + n + 1);
            assert(a@.last() == tail@[n as int]);
            assert forall|j: int| offset <= j < a@.len() - 1 implies a@[j] != chr by {
                assert(tail@[j - offset] == a@[j]);
            }
            assert(a@ + b@ =~= data@);
            Some((a, b))
        },
    }
}

/// The bytes of the spans, one after another.
pub open spec fn concat(cs: Seq<Seq<u8>>) -> Seq<u8>
    decreases cs.len(),
{
    if cs.len() == 0 { Seq::empty() } else { concat(cs.drop_last()) + cs.last() }
}

/// The bytes of each span.
pub open spec fn views(cs: Seq<&[u8]>) -> Seq<Seq<u8>> {
    cs.map_values(|c: &[u8]| c@)
}

/// A span that is not the last one: it is longer than `target` and ends
/// with the first newline at or after position `target`.
pub open spec fn cut_after_newline(c: Seq<u8>, target: int) -> bool {
    &&& c.len() > target
    &&& c.last() == 0x0a
    &&& clear_before_end(c, 0x0a, target)
}

/// Divides `data` into at most `num` newline-aligned spans whose
/// concatenation is `data`. Each span but the last ends just after the first
/// newline at or after `data.len() / num` bytes into it; the last one holds
/// what is left.
pub fn split_to_aligned_chunks(data: &[u8], num: usize) -> (chunks: Vec<&[u8]>)
    requires
        num >= 1,
    ensures
        concat(views(chunks@)) == data@,
        chunks@.len() <= num,
        data@.len() == 0 <==> chunks@.len() == 0,
        forall|k: int| 0 <= k < chunks@.len() ==> (#[trigger] chunks@[k])@.len() >= 1,
        forall|k: int|
            0 <= k < chunks@.len() ==> clear_before_end(
                (#[trigger] chunks@[k])@,
                0x0a,
                (data@.len() / (num as nat)) as int,
            ),
        forall|k: int|
            0 <= k < chunks@.len() - 1 ==> cut_after_newline(
                (#[trigger] chunks@[k])@,
                (data@.len() / (num as nat)) as int,
            ),
{
    let len = data.len();
    let mut chunks: Vec<&[u8]> = Vec::new();
    if len == 0 {
        proof {
            assert(views(chunks@) =~= Seq::<Seq<u8>>::empty());
        }
        return chunks;
    }
    if num == 1 {
        chunks.push(data);
        proof {
            assert(views(chunks@) =~= seq![data@]);
            assert(views(chunks@).drop_last() =~= Seq::<Seq<u8>>::empty());
            assert(concat(views(chunks@)) == concat(views(chunks@).drop_last()) + views(
                chunks@,
            ).last());
            assert(concat(views(chunks@)) =~= data@);
        }
        return chunks;
    }
    let target = len / num;
    let mut pos: usize = 0;
    let mut i: usize = 0;
    while i < num && pos < len
        invariant
            len == data@.len(),
            target == len / num,
            num >= 2,
            i <= num,
            pos <= len,
            chunks@.len() == i,
            concat(views(chunks@)) == data@.take(pos as int),
            pos == len || pos >= i * (target + 1),
            forall|k: int| 0 <= k < chunks@.len() ==> (#[trigger] chunks@[k])@.len() >= 1,
            forall|k: int|
                0 <= k < chunks@.len() ==> clear_before_end(
                    (#[trigger] chunks@[k])@,
                    0x0a,
                    target as int,
                ),
            forall|k: int|
                0 <= k < chunks@.len() ==> cut_after_newline((#[trigger] chunks@[k])@, target as int)
                    || (k == chunks@.len() - 1 && pos == len),
        decreases num - i,
    {
        let rest = &data[pos..len];
        let ghost old_views = views(chunks@);
        let piece: &[u8];
        match split_after_offset(0x0a, rest, target) {
            Some((c, _)) => {
                piece = c;
            },
            None => {
                piece = rest;
                assert(clear_before_end(piece@, 0x0a, target as int));
            },
        }
        assert(piece@ =~= data@.subrange(pos as int, pos + piece@.len()));
        chunks.push(piece);
        let ghost new_pos = pos + piece@.len();
        pos = pos + piece.len();
        i = i + 1;
        proof {
            assert(views(chunks@).drop_last() =~= old_views);
            assert(views(chunks@).last() == piece@);
            assert(data@.take(pos as int) =~= data@.take(pos - piece@.len()) + piece@);
            if pos < len {
                assert(cut_after_newline(piece@, target as int));
                assert(pos >= i * (target + 1)) by (nonlinear_arith)
                    requires
                        pos - piece@.len() >= (i - 1) * (target + 1),
                        piece@.len() >= target + 1,
                ;
            }
        }
    }
    proof {
        if pos < len {
            assert(i == num);
            assert(num * (target + 1) > len) by (nonlinear_arith)
                requires
                    target == len / num,
                    num >= 2,
            ;
        }
        assert(data@.take(len as int) =~= data@);
    }
    chunks
}

} // verus!
