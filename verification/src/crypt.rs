//! The at-rest encryption frame filter: AES-256-CBC applied around page
//! reads and writes, with page 1 always passed through verbatim.

use crate::PAGE_SIZE;
use crate::bytes::copy_bytes;
use crate::error::Error;
use crate::shared::{PageSource, SharedWal, tx_after_read};
use crate::tx::{Transaction, WriteTransaction};
use cbc::cipher::block_padding::NoPadding;
use cbc::cipher::{BlockModeDecrypt, BlockModeEncrypt, KeyIvInit};
use vstd::prelude::*;

verus! {

/// What AES-256-CBC encryption yields for a key, an initialization vector
/// and a block-aligned input; a function of those three alone.
pub uninterp spec fn cbc_encrypt(key: Seq<u8>, iv: Seq<u8>, plain: Seq<u8>) -> Seq<u8>;

/// What AES-256-CBC decryption yields for a key, an initialization vector
/// and a block-aligned input; a function of those three alone.
pub uninterp spec fn cbc_decrypt(key: Seq<u8>, iv: Seq<u8>, cipher: Seq<u8>) -> Seq<u8>;

/// Relies on `cbc::Encryptor<aes::Aes256>` with `NoPadding`: in-place
/// AES-256-CBC encryption of a block-aligned buffer keeps its length, and
/// its output depends on the key, the initialization vector and the input
/// alone.
#[verifier::external_body]
fn encrypt_buf(key: &Vec<u8>, iv: &Vec<u8>, buf: &mut Vec<u8>)
    requires
        key@.len() == 32,
        iv@.len() == 16,
        old(buf)@.len() == PAGE_SIZE,
    ensures
        final(buf)@ == cbc_encrypt(key@, iv@, old(buf)@),
        final(buf)@.len() == old(buf)@.len(),
{
    let enc = cbc::Encryptor::<aes::Aes256>::new_from_slices(key, iv).unwrap();
    let len = buf.len();
    enc.encrypt_padded::<NoPadding>(buf, len).unwrap();
}

/// Relies on `cbc::Decryptor<aes::Aes256>` with `NoPadding`: in-place
/// AES-256-CBC decryption of a block-aligned buffer keeps its length,
/// depends on the key, the initialization vector and the input alone, and
/// inverts encryption under the same key and initialization vector.
#[verifier::external_body]
fn decrypt_buf(key: &Vec<u8>, iv: &Vec<u8>, buf: &mut Vec<u8>)
    requires
        key@.len() == 32,
        iv@.len() == 16,
        old(buf)@.len() == PAGE_SIZE,
    ensures
        final(buf)@ == cbc_decrypt(key@, iv@, old(buf)@),
        final(buf)@.len() == old(buf)@.len(),
        forall|p: Seq<u8>|
            #[trigger] cbc_encrypt(key@, iv@, p) == old(buf)@ && p.len() == old(buf)@.len()
                ==> final(buf)@ == p,
{
    let dec = cbc::Decryptor::<aes::Aes256>::new_from_slices(key, iv).unwrap();
    dec.decrypt_padded::<NoPadding>(buf).unwrap();
}

/// The log wrapped in the at-rest encryption filter: pages other than page 1
/// are stored encrypted and handed back decrypted.
pub struct CryptWal {
    /// The 32-byte AES-256 key.
    pub key: Vec<u8>,
    /// The 16-byte initialization vector.
    pub iv: Vec<u8>,
}

impl CryptWal {
    /// A usable filter holds a full key and initialization vector.
    pub open spec fn wf(&self) -> bool {
        self.key@.len() == 32 && self.iv@.len() == 16
    }

    pub fn new(key: Vec<u8>, iv: Vec<u8>) -> (r: CryptWal)
        requires
            key@.len() == 32,
            iv@.len() == 16,
        ensures
            r.wf(),
            r.key@ == key@,
            r.iv@ == iv@,
    {
        CryptWal { key, iv }
    }

    /// What leaves the store for page `page_no` when `stored` lies in it:
    /// page 1 verbatim, any other page decrypted — and, in particular, the
    /// original plaintext whenever `stored` was this filter's encryption.
    pub open spec fn decodes(&self, page_no: u32, stored: Seq<u8>, out: Seq<u8>) -> bool {
        if page_no == 1 {
            out == stored
        } else {
            &&& out == cbc_decrypt(self.key@, self.iv@, stored)
            &&& forall|p: Seq<u8>|
                #[trigger] cbc_encrypt(self.key@, self.iv@, p) == stored && p.len()
                    == stored.len() ==> out == p
        }
    }

    /// What enters the store for page `page_no` holding plaintext `plain`:
    /// page 1 verbatim, any other page encrypted.
    pub open spec fn encodes(&self, page_no: u32, plain: Seq<u8>, stored: Seq<u8>) -> bool {
        if page_no == 1 {
            stored == plain
        } else {
            stored == cbc_encrypt(self.key@, self.iv@, plain)
        }
    }

    /// Applies the read-side transform: page 1 untouched, the rest decrypted.
    pub fn decode_page(&self, page_no: u32, buf: &mut Vec<u8>)
        requires
            self.wf(),
            old(buf)@.len() == PAGE_SIZE,
        ensures
            self.decodes(page_no, old(buf)@, final(buf)@),
            final(buf)@.len() == PAGE_SIZE,
    {
        if page_no != 1 {
            decrypt_buf(&self.key, &self.iv, buf);
        }
    }

    /// Applies the write-side transform: page 1 untouched, the rest
    /// encrypted.
    pub fn encode_page(&self, page_no: u32, buf: &mut Vec<u8>)
        requires
            self.wf(),
            old(buf)@.len() == PAGE_SIZE,
        ensures
            self.encodes(page_no, old(buf)@, final(buf)@),
            final(buf)@.len() == PAGE_SIZE,
    {
        if page_no != 1 {
            encrypt_buf(&self.key, &self.iv, buf);
        }
    }

    /// Serves page `page_no` like the log's own read, then undoes the at-rest
    /// transform: what was stored encrypted comes back as the plaintext that
    /// was inserted; page 1 is delivered verbatim.
    pub fn read_frame(
        &self,
        wal: &SharedWal,
        tx: &mut Transaction,
        page_no: u32,
        buffer: &mut Vec<u8>,
    ) -> (r: Result<(), Error>)
        requires
            self.wf(),
            wal.wf(),
            page_no >= 1,
            *old(tx) matches Transaction::Write(w) ==> w.wf_for(&wal.current),
            old(tx).spec_pages_read() < u64::MAX,
        ensures
            ({
                let src = wal.page_source(old(tx), page_no);
                match src {
                    PageSource::Current(off) => r is Ok && self.decodes(
                        page_no,
                        wal.current.frames@[off].data@,
                        final(buffer)@,
                    ),
                    PageSource::Tail(s, j) => r is Ok && self.decodes(
                        page_no,
                        wal.tail@[s].frames@[j].data@,
                        final(buffer)@,
                    ),
                    PageSource::Base => (page_no as int) * (PAGE_SIZE as int)
                        <= wal.db_file@.len() ==> r is Ok && self.decodes(
                        page_no,
                        wal.db_file@.subrange(
                            (page_no - 1) * PAGE_SIZE,
                            (page_no as int) * (PAGE_SIZE as int),
                        ),
                        final(buffer)@,
                    ),
                }
            }),
            r is Ok ==> tx_after_read(*old(tx), *final(tx)),
            r is Err ==> *final(tx) == *old(tx),
    {
        proof {
            crate::shared::lemma_page_source_sizes(wal, old(tx), page_no);
        }
        match wal.read_frame(tx, page_no, buffer) {
            Ok(()) => {
                self.decode_page(page_no, buffer);
                Ok(())
            },
            Err(e) => Err(e),
        }
    }

    /// Inserts `pages` like the log's own insert, with every page but page 1
    /// stored encrypted; commit behaviour and numbering are the log's.
    pub fn insert_frames(
        &self,
        wal: &mut SharedWal,
        tx: &mut WriteTransaction,
        pages: &Vec<(u32, Vec<u8>)>,
        size_after: Option<u32>,
    ) -> (r: Result<(), Error>)
        requires
            self.wf(),
            old(wal).wf(),
            old(tx).wf_for(&old(wal).current),
            old(wal).wal_lock.tx_id == Some(old(tx).read_tx.id),
            !old(tx).is_commited,
            forall|q: int|
                0 <= q < pages@.len() ==> {
                    &&& (#[trigger] pages@[q]).0 >= 1
                    &&& pages@[q].1@.len() == PAGE_SIZE
                    &&& (pages@[q].0 as int) * (PAGE_SIZE as int) <= usize::MAX
                },
            old(wal).current.frames@.len() + pages@.len() <= u32::MAX,
            old(wal).current.start_frame_no + old(wal).current.frames@.len() + pages@.len()
                <= u64::MAX,
            size_after matches Some(s) ==> s >= 1,
            pages@.len() >= 1 || size_after is None,
        ensures
            r is Ok,
            final(wal).wf(),
            final(tx).read_tx == old(tx).read_tx,
            final(tx).is_commited == (size_after is Some),
            final(wal).db_file == old(wal).db_file,
            final(wal).checkpointed_frame_no == old(wal).checkpointed_frame_no,
            (size_after is None || old(wal).current.frames@.len() + pages@.len()
                <= crate::shared::SEGMENT_MAX_COMMITTED) ==> {
                &&& final(wal).current.frames@.len() == old(wal).current.frames@.len()
                    + pages@.len()
                &&& forall|q: int|
                    0 <= q < pages@.len() ==> {
                        let nf = #[trigger] final(wal).current.frames@[old(
                            wal,
                        ).current.frames@.len() + q];
                        &&& nf.page_no == pages@[q].0
                        &&& self.encodes(pages@[q].0, pages@[q].1@, nf.data@)
                        &&& nf.frame_no == old(wal).current.start_frame_no + old(
                            wal,
                        ).current.frames@.len() + q
                    }
            },
            size_after is Some ==> final(wal).new_frame_notifier == old(wal).current.start_frame_no
                + old(wal).current.frames@.len() + pages@.len() - 1,
    {
        let n: usize = pages.len();
        let mut enc_pages: Vec<(u32, Vec<u8>)> = Vec::new();
        let mut q: usize = 0;
        while q < n
            invariant
                self.wf(),
                q <= n,
                n == pages@.len(),
                forall|t: int|
                    0 <= t < pages@.len() ==> {
                        &&& (#[trigger] pages@[t]).0 >= 1
                        &&& pages@[t].1@.len() == PAGE_SIZE
                        &&& (pages@[t].0 as int) * (PAGE_SIZE as int) <= usize::MAX
                    },
                enc_pages@.len() == q,
                forall|t: int|
                    0 <= t < q ==> {
                        &&& (#[trigger] enc_pages@[t]).0 == pages@[t].0
                        &&& enc_pages@[t].1@.len() == PAGE_SIZE
                        &&& self.encodes(pages@[t].0, pages@[t].1@, enc_pages@[t].1@)
                    },
            decreases n - q,
        {
            let pn: u32 = pages[q].0;
            let mut data: Vec<u8> = copy_bytes(&pages[q].1);
            self.encode_page(pn, &mut data);
            enc_pages.push((pn, data));
            q = q + 1;
        }
        wal.insert_frames(tx, &enc_pages, size_after)
    }
}

} // verus!
