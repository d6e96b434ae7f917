//! Change detection for the directories of templates and of article
//! sources: each directory is summed up by the Adler-32 checksums of its files.
use vstd::prelude::*;

verus! {

/// The Adler-32 checksum of some bytes.
pub uninterp spec fn adler32_of(bytes: Seq<u8>) -> u32;

/// Relies on `adler::adler32_slice`: the Adler-32 checksum of `bytes`.
#[verifier::external_body]
fn adler32(bytes: &[u8]) -> (r: u32)
    ensures
        r == adler32_of(bytes@),
{
    adler::adler32_slice(bytes)
}

/// The sum of some checksums.
pub open spec fn checksum_sum(sums: Seq<u32>) -> int
    decreases sums.len(),
{
    if sums.len() == 0 {
        0
    } else {
        checksum_sum(sums.drop_last()) + sums.last() as int
    }
}

/// The checksums of some files' contents.
pub open spec fn checksums(files: Seq<Vec<u8>>) -> Seq<u32> {
    files.map_values(|f: Vec<u8>| adler32_of(f@))
}

/// The hash of a directory: the sum of its files' checksums.
pub open spec fn dir_hash(files: Seq<Vec<u8>>) -> int {
    checksum_sum(checksums(files))
}

proof fn lemma_sum_bound(sums: Seq<u32>)
    ensures
        0 <= checksum_sum(sums) <= sums.len() * 0xffff_ffff,
    decreases sums.len(),
{
    if sums.len() > 0 {
        lemma_sum_bound(sums.drop_last());
    }
}

/// The sum of `sums`; fewer than 2^32 of them always fit.
pub fn sum_checksums(sums: &Vec<u32>) -> (r: u64)
    requires
        sums@.len() <= 0xffff_ffff,
    ensures
        r as int == checksum_sum(sums@),
{
    let mut h: u64 = 0;
    let mut i: usize = 0;
    while i < sums.len()
        invariant
            i <= sums@.len() <= 0xffff_ffff,
            h as int == checksum_sum(sums@.take(i as int)),
        decreases sums.len() - i,
    {
        proof {
            assert(sums@.take(i + 1).drop_last() =~= sums@.take(i as int));
            lemma_sum_bound(sums@.take(i + 1));
            assert((i + 1) * 0xffff_ffff <= 0xffff_ffff * 0xffff_ffff) by (nonlinear_arith)
                requires
                    i + 1 <= 0xffff_ffff,
            ;
        }
        h = h + sums[i] as u64;
        i = i + 1;
    }
    assert(sums@.take(sums@.len() as int) =~= sums@);
    h
}

/// Watches two directories for changes, by the hash of their contents.
#[derive(Debug)]
pub struct FileTracker {
    pub templates_hash: u64,
    pub articles_hash: u64,
}

impl FileTracker {
    /// Starts watching the directories whose files hold `templates` and
    /// `articles`.
    pub fn new(templates: &Vec<Vec<u8>>, articles: &Vec<Vec<u8>>) -> (r: FileTracker)
        requires
            templates@.len() <= 0xffff_ffff,
            articles@.len() <= 0xffff_ffff,
        ensures
            r.templates_hash as int == dir_hash(templates@),
            r.articles_hash as int == dir_hash(articles@),
    {
        let templates_hash = Self::hash_dir(templates);
        let articles_hash = Self::hash_dir(articles);
        FileTracker { templates_hash, articles_hash }
    }

    /// The hash of a directory whose files hold `files`.
    pub fn hash_dir(files: &Vec<Vec<u8>>) -> (r: u64)
        requires
            files@.len() <= 0xffff_ffff,
        ensures
            r as int == dir_hash(files@),
    {
        let mut sums: Vec<u32> = Vec::new();
        let mut i: usize = 0;
        while i < files.len()
            invariant
                i <= files@.len(),
                sums@ == checksums(files@).take(i as int),
            decreases files.len() - i,
        {
            sums.push(adler32(files[i].as_slice()));
            assert(sums@ =~= checksums(files@).take(i + 1));
            i = i + 1;
        }
        assert(checksums(files@).take(files@.len() as int) =~= checksums(files@));
        sum_checksums(&sums)
    }

    /// Whether the articles' sources changed since the last look; the new
    /// hash is kept.
    pub fn check_articles(&mut self, articles: &Vec<Vec<u8>>) -> (r: bool)
        requires
            articles@.len() <= 0xffff_ffff,
        ensures
            final(self).articles_hash as int == dir_hash(articles@),
            final(self).templates_hash == old(self).templates_hash,
            r == (dir_hash(articles@) != old(self).articles_hash as int),
    {
        let new = Self::hash_dir(articles);
        if new != self.articles_hash {
            self.articles_hash = new;
            true
        } else {
            false
        }
    }

    /// Whether the templates changed since the last look; the new hash is
    /// kept.
    pub fn check_templates(&mut self, templates: &Vec<Vec<u8>>) -> (r: bool)
        requires
            templates@.len() <= 0xffff_ffff,
        ensures
            final(self).templates_hash as int == dir_hash(templates@),
            final(self).articles_hash == old(self).articles_hash,
            r == (dir_hash(templates@) != old(self).templates_hash as int),
    {
        let new = Self::hash_dir(templates);
        if new != self.templates_hash {
            self.templates_hash = new;
            true
        } else {
            false
        }
    }
}

} // verus!
