//! A digest computation of any kind: a whole-object digest or a composite
//! one, chosen by its spec string.

use crate::aws_etag::{
    concat_all, lemma_concat_push, composite_of, effective_total, etag_of, parts_text, AWSETagCtx, Schedule,
};
use crate::digest::{algorithm_name, algorithm_named, digest_of, Algorithm, StandardCtx};
use crate::error::{parse_error, Error};
use crate::text::{chars_of, hex_of};
use vstd::prelude::*;

verus! {

/// What a spec string denotes: an algorithm, or an algorithm with a part
/// schedule.
pub enum Kind {
    Simple(Algorithm),
    Composite(Algorithm, Schedule),
}

/// The kind that a spec string denotes, if any: a composite spec where it
/// parses as one, else a bare algorithm name.
pub open spec fn kind_of(s: Seq<char>) -> Option<Kind> {
    match composite_of(s) {
        Some((a, m)) => Some(Kind::Composite(a, m)),
        None => match algorithm_named(s) {
            Some(a) => Some(Kind::Simple(a)),
            None => None,
        },
    }
}

/// The canonical spec string of a kind; a part count is rendered as the
/// part size that it implies for `total` bytes.
pub open spec fn display_of(k: Kind, total: nat) -> Seq<char> {
    match k {
        Kind::Simple(a) => algorithm_name(a),
        Kind::Composite(a, m) => algorithm_name(a) + seq!['-', 'a', 'w', 's', '-'] + parts_text(
            m,
            total,
        ),
    }
}

/// The bytes of a list of chunks, in order.
pub open spec fn chunks_bytes(chunks: Seq<Vec<u8>>) -> Seq<u8> {
    concat_all(chunks.map_values(|c: Vec<u8>| c@))
}

/// The digest that a computation gives for `data`: the whole-object digest,
/// or the composite digest under its schedule.
pub open spec fn result_of(ctx: Ctx, data: Seq<u8>) -> Seq<u8> {
    match ctx {
        Ctx::Regular(c) => digest_of(c.algorithm(), data),
        Ctx::AWSEtag(c) => etag_of(c.algorithm(), c.mode(), c.cut_size(), data),
    }
}

/// A longer prefix of the chunks holds at least as many bytes.
pub proof fn lemma_concat_len_mono(views: Seq<Seq<u8>>, i: int)
    requires
        0 <= i <= views.len(),
    ensures
        concat_all(views.take(i)).len() <= concat_all(views).len(),
    decreases views.len() - i,
{
    if i < views.len() {
        lemma_concat_len_mono(views, i + 1);
        assert(views.take(i + 1) =~= views.take(i).push(views[i]));
        lemma_concat_push(views.take(i), views[i]);
    } else {
        assert(views.take(i) =~= views);
    }
}

/// A digest computation.
pub enum Ctx {
    Regular(StandardCtx),
    AWSEtag(AWSETagCtx),
}

impl Ctx {
    /// The internal invariant of the computation.
    pub open spec fn wf(&self) -> bool {
        match self {
            Ctx::Regular(c) => c.wf(),
            Ctx::AWSEtag(c) => c.wf(),
        }
    }

    /// What the computation is.
    pub open spec fn kind(&self) -> Kind {
        match self {
            Ctx::Regular(c) => Kind::Simple(c.algorithm()),
            Ctx::AWSEtag(c) => Kind::Composite(c.algorithm(), c.mode()@),
        }
    }

    /// The bytes absorbed so far.
    pub open spec fn stream(&self) -> Seq<u8> {
        match self {
            Ctx::Regular(c) => c.absorbed(),
            Ctx::AWSEtag(c) => c.stream(),
        }
    }

    /// Whether the computation may still absorb bytes.
    pub open spec fn is_open(&self) -> bool {
        match self {
            Ctx::Regular(_) => true,
            Ctx::AWSEtag(c) => !c.is_finalized(),
        }
    }

    /// Whether the canonical name can be rendered.
    pub open spec fn can_format(&self) -> bool {
        match self {
            Ctx::Regular(_) => true,
            Ctx::AWSEtag(c) => c.can_format(),
        }
    }

    /// The byte count that a part count is rendered against.
    pub open spec fn render_total(&self) -> nat {
        match self {
            Ctx::Regular(c) => c.absorbed().len(),
            Ctx::AWSEtag(c) => effective_total(c.declared_size(), c.stream().len()),
        }
    }

    /// Parses a spec string: a composite spec (`md5-aws-100mib`,
    /// `aws-etag-10`) where it is one, else an algorithm name (`md5`, `sha1`,
    /// `sha256`, `crc32`, `crc32c`).
    pub fn from_str(s: &str) -> (r: Result<Ctx, Error>)
        ensures
            match kind_of(s@) {
                Some(k) => {
                    &&& r is Ok
                    &&& r->Ok_0.wf()
                    &&& r->Ok_0.is_open()
                    &&& r->Ok_0.kind() == k
                    &&& r->Ok_0.stream() == Seq::<u8>::empty()
                    &&& r->Ok_0 is AWSEtag ==> r->Ok_0->AWSEtag_0.declared_size() is None
                },
                None => r is Err && r->Err_0 is ParseError,
            },
    {
        match AWSETagCtx::from_str(s) {
            Ok(c) => Ok(Ctx::AWSEtag(c)),
            Err(_) => match Algorithm::from_name(&chars_of(s)) {
                Some(a) => Ok(Ctx::Regular(StandardCtx::new(a))),
                None => Err(parse_error("unknown checksum spec")),
            },
        }
    }

    /// Absorbs a chunk of the stream.
    pub fn update(&mut self, data: &[u8]) -> (r: Result<(), Error>)
        requires
            old(self).wf(),
            old(self).is_open(),
        ensures
            final(self).wf(),
            final(self).is_open(),
            final(self).kind() == old(self).kind(),
            r is Ok ==> final(self).stream() == old(self).stream() + data@,
            r is Err ==> final(self).stream() == old(self).stream(),
            match *old(self) {
                Ctx::Regular(_) => r is Ok,
                Ctx::AWSEtag(c) => r is Ok <==> crate::aws_etag::schedule_ok(
                    c.mode(),
                    c.cut_size(),
                ) && c.stream().len() + data@.len() <= u64::MAX,
            },
            (*old(self)) is AWSEtag ==> (*final(self)) is AWSEtag
                && (*final(self))->AWSEtag_0.declared_size() == (*old(self))->AWSEtag_0.declared_size()
                && (*final(self))->AWSEtag_0.cut_size() == (*old(self))->AWSEtag_0.cut_size()
                && (*final(self))->AWSEtag_0.mode() == (*old(self))->AWSEtag_0.mode()
                && (*final(self))->AWSEtag_0.algorithm() == (*old(self))->AWSEtag_0.algorithm()
                && (*final(self))->AWSEtag_0.cursor() == (*old(self))->AWSEtag_0.cursor(),
            (*old(self)) is AWSEtag && r is Ok ==> final(self).stream().len() <= u64::MAX
                && (*final(self))->AWSEtag_0.total() == final(self).stream().len()
                && (*final(self))->AWSEtag_0.part_list() == crate::aws_etag::part_entries(
                (*old(self))->AWSEtag_0.algorithm(),
                crate::aws_etag::all_but_last(
                    crate::aws_etag::parts_of(
                        final(self).stream(),
                        (*old(self))->AWSEtag_0.mode(),
                        (*old(self))->AWSEtag_0.cut_size(),
                        0,
                    ),
                ),
            ),
            r is Err ==> *final(self) == *old(self),
            (*old(self)) is Regular ==> (*final(self)) is Regular
                && (*final(self))->Regular_0.algorithm() == (*old(self))->Regular_0.algorithm(),
            r is Err ==> r->Err_0 is ParseError || r->Err_0 is OverflowError,
    {
        match self {
            Ctx::Regular(c) => {
                c.update(data);
                Ok(())
            },
            Ctx::AWSEtag(c) => c.update(data),
        }
    }

    /// Finishes the computation and returns the digest: the whole-object
    /// digest, or the composite digest of the parts.
    pub fn finalize(&mut self) -> (r: Result<Vec<u8>, Error>)
        requires
            old(self).wf(),
            old(self).is_open(),
        ensures
            final(self).wf(),
            r is Ok,
            r->Ok_0@ == match *old(self) {
                Ctx::Regular(c) => digest_of(c.algorithm(), c.absorbed()),
                Ctx::AWSEtag(c) => etag_of(c.algorithm(), c.mode(), c.cut_size(), c.stream()),
            },
            (*old(self)) is AWSEtag ==> (*final(self)) is AWSEtag && (*final(self))->AWSEtag_0.is_finalized() && (*final(self))->AWSEtag_0.stream() == (*old(self))->AWSEtag_0.stream() && (*final(self))->AWSEtag_0.declared_size() == (*old(self))->AWSEtag_0.declared_size(),
            (*old(self)) is Regular ==> (*final(self)) is Regular,
    {
        match self {
            Ctx::Regular(c) => Ok(c.finalize()),
            Ctx::AWSEtag(c) => c.finalize(),
        }
    }

    /// A digest as text: its hexadecimal encoding, followed for a composite
    /// digest by `-` and the schedule.
    pub fn digest_to_string(&self, digest: &[u8]) -> (r: String)
        requires
            self.wf(),
            self.can_format(),
        ensures
            r@ == match self.kind() {
                Kind::Simple(_) => hex_of(digest@),
                Kind::Composite(_, m) => hex_of(digest@).push('-') + parts_text(
                    m,
                    self.render_total(),
                ),
            },
    {
        match self {
            Ctx::Regular(c) => c.digest_to_string(digest),
            Ctx::AWSEtag(c) => c.digest_to_string(digest),
        }
    }

    /// The size of the first part of a composite digest; `None` for a
    /// whole-object digest.
    pub fn part_size(&self) -> (r: Option<u64>)
        requires
            self.wf(),
            self.can_format(),
        ensures
            match self.kind() {
                Kind::Simple(_) => r is None,
                Kind::Composite(_, Schedule::Count(n)) => r == Some(
                    crate::aws_etag::ceil_div(self.render_total(), n as nat) as u64,
                ),
                Kind::Composite(_, Schedule::Sizes(v)) => r == if v.len() == 0 {
                    None
                } else {
                    Some(v[0])
                },
            },
    {
        match self {
            Ctx::Regular(_) => None,
            Ctx::AWSEtag(c) => c.first_part_size(),
        }
    }

    /// The finished parts of a composite digest, each as its length and
    /// encoded digest; `None` for a whole-object digest.
    pub fn part_checksums(&self) -> (r: Option<Vec<(u64, String)>>)
        requires
            self.wf(),
        ensures
            match self {
                Ctx::Regular(_) => r is None,
                Ctx::AWSEtag(c) => r is Some && r->Some_0@.len() == c.part_list().len() && forall|
                    i: int,
                |
                    0 <= i < c.part_list().len() ==> (#[trigger] r->Some_0@[i]).0 == c.part_list()[i].0
                        && r->Some_0@[i].1@ == hex_of(c.part_list()[i].1),
            },
    {
        match self {
            Ctx::Regular(_) => None,
            Ctx::AWSEtag(c) => Some(c.part_checksums()),
        }
    }

    /// Declares the size of the object (see `AWSETagCtx::set_file_size`).
    /// A whole-object digest does not need it.
    pub fn set_file_size(&mut self, file_size: Option<u64>)
        requires
            old(self).wf(),
        ensures
            final(self).wf(),
            final(self).kind() == old(self).kind(),
            final(self).stream() == old(self).stream(),
            final(self).is_open() == old(self).is_open(),
            (*old(self)) is AWSEtag ==> (*final(self)) is AWSEtag && (*final(self))->AWSEtag_0.declared_size()
                == file_size && (*final(self))->AWSEtag_0.cut_size() == (if old(self).stream().len() == 0 {
                file_size
            } else {
                (*old(self))->AWSEtag_0.cut_size()
            }) && (*final(self))->AWSEtag_0.part_list() == (*old(self))->AWSEtag_0.part_list()
                && (*final(self))->AWSEtag_0.cursor() == (*old(self))->AWSEtag_0.cursor(),
            (*old(self)) is Regular ==> *final(self) == *old(self),
    {
        match self {
            Ctx::Regular(_) => {},
            Ctx::AWSEtag(c) => c.set_file_size(file_size),
        }
    }

    /// The canonical spec string.
    pub fn to_string(&self) -> (r: String)
        requires
            self.wf(),
            self.can_format(),
        ensures
            r@ == display_of(self.kind(), self.render_total()),
    {
        match self {
            Ctx::Regular(c) => {
                let mut s = String::new();
                c.kind().write_name(&mut s);
                assert(s@ =~= algorithm_name(c.algorithm()));
                s
            },
            Ctx::AWSEtag(c) => c.to_string(),
        }
    }
    /// Absorbs the chunks in order, then finishes the computation. Fails as
    /// `update` does on the first chunk that it refuses.
    pub fn generate(&mut self, chunks: &Vec<Vec<u8>>) -> (r: Result<Vec<u8>, Error>)
        requires
            old(self).wf(),
            old(self).is_open(),
        ensures
            final(self).wf(),
            r is Ok ==> r->Ok_0@ == result_of(*old(self), old(self).stream() + chunks_bytes(chunks@)),
            match *old(self) {
                Ctx::Regular(_) => r is Ok,
                Ctx::AWSEtag(c) => r is Ok <==> chunks@.len() == 0 || (crate::aws_etag::schedule_ok(
                    c.mode(),
                    c.cut_size(),
                ) && c.stream().len() + chunks_bytes(chunks@).len() <= u64::MAX),
            },
            r is Err ==> r->Err_0 is ParseError || r->Err_0 is OverflowError,
    {
        let ghost start = self.stream();
        let ghost views = chunks@.map_values(|c: Vec<u8>| c@);
        let mut i: usize = 0;
        assert(views.take(0) =~= Seq::<Seq<u8>>::empty());
        assert(start + concat_all(views.take(0)) =~= start);
        while i < chunks.len()
            invariant
                self.wf(),
                self.is_open(),
                self.kind() == old(self).kind(),
                views == chunks@.map_values(|c: Vec<u8>| c@),
                start == old(self).stream(),
                i <= chunks@.len(),
                self.stream() == start + concat_all(views.take(i as int)),
                (*old(self)) is AWSEtag ==> (*self) is AWSEtag && (*self)->AWSEtag_0.cut_size()
                    == (*old(self))->AWSEtag_0.cut_size() && (*self)->AWSEtag_0.mode() == (*old(
                    self))->AWSEtag_0.mode() && (*self)->AWSEtag_0.algorithm() == (*old(
                    self))->AWSEtag_0.algorithm(),
                (*old(self)) is Regular ==> (*self) is Regular && (*self)->Regular_0.algorithm() == (*old(
                    self))->Regular_0.algorithm(),
                i > 0 && (*old(self)) is AWSEtag ==> self.stream().len() <= u64::MAX,
                i > 0 && (*old(self)) is AWSEtag ==> crate::aws_etag::schedule_ok(
                    (*old(self))->AWSEtag_0.mode(),
                    (*old(self))->AWSEtag_0.cut_size(),
                ),
            decreases chunks@.len() - i,
        {
            let ghost before = self.stream();
            proof {
                assert(views.take(i + 1) =~= views.take(i as int).push(views[i as int]));
                lemma_concat_push(views.take(i as int), views[i as int]);
                lemma_concat_len_mono(views, i as int);
            }
            let ghost pre = *self;
            match self.update(chunks[i].as_slice()) {
                Ok(()) => {},
                Err(e) => {
                    proof {
                        assert(pre is AWSEtag);
                        assert(views[i as int] == chunks@[i as int]@);
                        assert(!crate::aws_etag::schedule_ok(
                            pre->AWSEtag_0.mode(),
                            pre->AWSEtag_0.cut_size(),
                        ) || before.len() + views[i as int].len() > u64::MAX);
                        assert(concat_all(views.take(i + 1)).len() == concat_all(views.take(i as int)).len()
                            + views[i as int].len());
                        lemma_concat_len_mono(views, i + 1);
                        lemma_concat_len_mono(views, chunks@.len() as int);
                        assert(views.take(chunks@.len() as int) =~= views);
                        assert(chunks_bytes(chunks@) == concat_all(views));
                        assert(before.len() == start.len() + concat_all(views.take(i as int)).len());
                        assert(chunks@.len() != 0);
                        assert((*old(self))->AWSEtag_0.stream() == start);
                        assert(!(crate::aws_etag::schedule_ok(
                            (*old(self))->AWSEtag_0.mode(),
                            (*old(self))->AWSEtag_0.cut_size(),
                        ) && start.len() + chunks_bytes(chunks@).len() <= u64::MAX));
                    }
                    return Err(e);
                },
            }
            assert(self.stream() =~= start + concat_all(views.take(i + 1)));
            i = i + 1;
        }
        assert(views.take(chunks@.len() as int) =~= views);
        match self.finalize() {
            Ok(d) => Ok(d),
            Err(e) => Err(e),
        }
    }
}

} // verus!
