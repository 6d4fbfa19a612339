//! Storage with prefixes over the backend's key spaces: what the backend is
//! opened with, the direct storage context, and its atomic batches.
use vstd::prelude::*;
use crate::bytes::{copy_bytes, make_prefixed_key};
use crate::context::{bytes_view, stored, PrefixedRawIterator};
use crate::keyspace::KeySpace;
use crate::storage::{Storage, StorageView};

verus! {

/// The name of the column family of the *aux* space.
pub const AUX_CF_NAME: &'static str = "aux";

/// The name of the column family of the *roots* space.
pub const ROOTS_CF_NAME: &'static str = "roots";

/// The name of the column family of the *meta* space.
pub const META_CF_NAME: &'static str = "meta";

/// The options that the backend is opened with.
#[derive(Clone, Copy, Debug, PartialEq, Eq, Structural)]
pub struct DbOptions {
    pub create_if_missing: bool,
    pub parallelism: i32,
    pub allow_mmap_writes: bool,
    pub allow_mmap_reads: bool,
    pub create_missing_column_families: bool,
    pub atomic_flush: bool,
}

/// A column family of the backend and the options it is opened with.
#[derive(Clone, Copy, Debug)]
pub struct ColumnFamilyDescriptor {
    pub name: &'static str,
    pub options: DbOptions,
}

/// The default options with a given parallelism: the database and its
/// column families are created where they are missing, reads and writes may
/// go through memory maps, and flushes are atomic over the column families.
pub open spec fn options_with(parallelism: i32) -> DbOptions {
    DbOptions {
        create_if_missing: true,
        parallelism: parallelism,
        allow_mmap_writes: true,
        allow_mmap_reads: true,
        create_missing_column_families: true,
        atomic_flush: true,
    }
}

/// `num_cpus::get`: the number of logical cores that this process may use.
/// It differs from machine to machine; the crate documents that it is
/// never below one, and the contract says no more.
#[verifier::external_body]
fn logical_cores() -> (cores: usize)
    ensures
        cores >= 1,
{
    num_cpus::get()
}

/// `cores` as the parallelism that the backend takes, which is a signed
/// 32-bit number: the largest one where `cores` is larger.
pub fn parallelism_for(cores: usize) -> (parallelism: i32)
    ensures
        parallelism == if cores <= i32::MAX {
            cores as int
        } else {
            i32::MAX as int
        },
{
    if cores <= 2147483647 {
        cores as i32
    } else {
        2147483647
    }
}

/// The default options for `cores` logical cores.
pub fn db_opts_for(cores: usize) -> (opts: DbOptions)
    ensures
        opts == options_with(
            if cores <= i32::MAX {
                cores as i32
            } else {
                i32::MAX
            },
        ),
{
    DbOptions {
        create_if_missing: true,
        parallelism: parallelism_for(cores),
        allow_mmap_writes: true,
        allow_mmap_reads: true,
        create_missing_column_families: true,
        atomic_flush: true,
    }
}

/// RocksDB options: the defaults, with one background thread for each
/// logical core of this machine.
pub fn default_db_opts() -> (opts: DbOptions)
    ensures
        opts == options_with(opts.parallelism),
        opts.parallelism >= 1,
{
    db_opts_for(logical_cores())
}

/// RocksDB column families: *aux*, *roots* and *meta*, each with the
/// default options. The *main* space is the default column family.
pub fn column_families() -> (families: Vec<ColumnFamilyDescriptor>)
    ensures
        families@.len() == 3,
        families@[0].name == AUX_CF_NAME,
        families@[1].name == ROOTS_CF_NAME,
        families@[2].name == META_CF_NAME,
        forall|i: int|
            0 <= i < 3 ==> (#[trigger] families@[i]).options == options_with(
                families@[i].options.parallelism,
            ) && families@[i].options.parallelism >= 1,
{
    let mut families: Vec<ColumnFamilyDescriptor> = Vec::new();
    families.push(ColumnFamilyDescriptor { name: AUX_CF_NAME, options: default_db_opts() });
    families.push(ColumnFamilyDescriptor { name: ROOTS_CF_NAME, options: default_db_opts() });
    families.push(ColumnFamilyDescriptor { name: META_CF_NAME, options: default_db_opts() });
    families
}

/// Why an operation of the direct storage failed.
#[derive(Debug, PartialEq, Eq)]
pub enum PrefixedRocksDbStorageError {
    /// The backend was opened without the named column family.
    ColumnFamilyNotFound(&'static str),
    /// The engine reported an error, with this message.
    RocksDbError(String),
}

/// The column of a batched write.
#[derive(Clone, Copy, Debug, PartialEq, Eq, Structural)]
pub enum Column {
    Main,
    Aux,
    Roots,
}

/// One write of a batch: a put of a value under a stored key, or a delete
/// of the key where there is no value.
pub struct BatchOperation {
    pub column: Column,
    pub key: Vec<u8>,
    pub value: Option<Vec<u8>>,
}

/// One write of a batch as a mathematical value.
pub struct BatchOperationView {
    pub column: Column,
    pub key: Seq<u8>,
    pub value: Option<Seq<u8>>,
}

impl View for BatchOperation {
    type V = BatchOperationView;

    open spec fn view(&self) -> BatchOperationView {
        BatchOperationView { column: self.column, key: self.key@, value: bytes_view(self.value) }
    }
}

/// The views of the writes of a batch.
pub open spec fn operations_view(operations: Seq<BatchOperation>) -> Seq<BatchOperationView> {
    Seq::new(operations.len(), |i: int| operations[i]@)
}

/// The key spaces after one write.
pub open spec fn apply_operation(s: StorageView, operation: BatchOperationView) -> StorageView {
    match (operation.column, operation.value) {
        (Column::Main, Some(value)) => StorageView {
            main: s.main.insert(operation.key, value),
            ..s
        },
        (Column::Main, None) => StorageView { main: s.main.remove(operation.key), ..s },
        (Column::Aux, Some(value)) => StorageView { aux: s.aux.insert(operation.key, value), ..s },
        (Column::Aux, None) => StorageView { aux: s.aux.remove(operation.key), ..s },
        (Column::Roots, Some(value)) => StorageView {
            roots: s.roots.insert(operation.key, value),
            ..s
        },
        (Column::Roots, None) => StorageView { roots: s.roots.remove(operation.key), ..s },
    }
}

/// The key spaces after the writes of a batch, in the order in which they
/// were added.
pub open spec fn apply_batch(s: StorageView, operations: Seq<BatchOperationView>) -> StorageView
    decreases operations.len(),
{
    if operations.len() == 0 {
        s
    } else {
        apply_operation(apply_batch(s, operations.drop_last()), operations.last())
    }
}

/// The view of a batch with one more write.
pub proof fn lemma_batch_push(operations: Seq<BatchOperation>, operation: BatchOperation)
    ensures
        operations_view(operations.push(operation)) == operations_view(operations).push(
            operation@,
        ),
{
    assert(operations_view(operations.push(operation)) =~= operations_view(operations).push(
        operation@,
    ));
}

/// Wrapper to a batch of the direct storage: writes under one prefix that
/// reach the key spaces together, when the batch is committed.
pub struct PrefixedRocksDbBatch {
    pub prefix: Vec<u8>,
    pub operations: Vec<BatchOperation>,
}

impl View for PrefixedRocksDbBatch {
    type V = Seq<BatchOperationView>;

    /// The writes of the batch, in the order in which they were added.
    open spec fn view(&self) -> Seq<BatchOperationView> {
        operations_view(self.operations@)
    }
}

impl PrefixedRocksDbBatch {
    /// Adds a put in the *main* space.
    pub fn put(&mut self, key: &[u8], value: &[u8])
        ensures
            final(self).prefix == old(self).prefix,
            final(self)@ == old(self)@.push(
                BatchOperationView {
                    column: Column::Main,
                    key: old(self).prefix@ + key@,
                    value: Some(value@),
                },
            ),
    {
        let operation = BatchOperation {
            column: Column::Main,
            key: make_prefixed_key(copy_bytes(self.prefix.as_slice()), key),
            value: Some(copy_bytes(value)),
        };
        proof {
            lemma_batch_push(self.operations@, operation);
        }
        self.operations.push(operation);
    }

    /// Adds a put in the *aux* space.
    pub fn put_aux(&mut self, key: &[u8], value: &[u8])
        ensures
            final(self).prefix == old(self).prefix,
            final(self)@ == old(self)@.push(
                BatchOperationView {
                    column: Column::Aux,
                    key: old(self).prefix@ + key@,
                    value: Some(value@),
                },
            ),
    {
        let operation = BatchOperation {
            column: Column::Aux,
            key: make_prefixed_key(copy_bytes(self.prefix.as_slice()), key),
            value: Some(copy_bytes(value)),
        };
        proof {
            lemma_batch_push(self.operations@, operation);
        }
        self.operations.push(operation);
    }

    /// Adds a put in the *roots* space.
    pub fn put_root(&mut self, key: &[u8], value: &[u8])
        ensures
            final(self).prefix == old(self).prefix,
            final(self)@ == old(self)@.push(
                BatchOperationView {
                    column: Column::Roots,
                    key: old(self).prefix@ + key@,
                    value: Some(value@),
                },
            ),
    {
        let operation = BatchOperation {
            column: Column::Roots,
            key: make_prefixed_key(copy_bytes(self.prefix.as_slice()), key),
            value: Some(copy_bytes(value)),
        };
        proof {
            lemma_batch_push(self.operations@, operation);
        }
        self.operations.push(operation);
    }

    /// Adds a delete in the *main* space.
    pub fn delete(&mut self, key: &[u8])
        ensures
            final(self).prefix == old(self).prefix,
            final(self)@ == old(self)@.push(
                BatchOperationView {
                    column: Column::Main,
                    key: old(self).prefix@ + key@,
                    value: None,
                },
            ),
    {
        let operation = BatchOperation {
            column: Column::Main,
            key: make_prefixed_key(copy_bytes(self.prefix.as_slice()), key),
            value: None,
        };
        proof {
            lemma_batch_push(self.operations@, operation);
        }
        self.operations.push(operation);
    }

    /// Adds a delete in the *aux* space.
    pub fn delete_aux(&mut self, key: &[u8])
        ensures
            final(self).prefix == old(self).prefix,
            final(self)@ == old(self)@.push(
                BatchOperationView {
                    column: Column::Aux,
                    key: old(self).prefix@ + key@,
                    value: None,
                },
            ),
    {
        let operation = BatchOperation {
            column: Column::Aux,
            key: make_prefixed_key(copy_bytes(self.prefix.as_slice()), key),
            value: None,
        };
        proof {
            lemma_batch_push(self.operations@, operation);
        }
        self.operations.push(operation);
    }

    /// Adds a delete in the *roots* space.
    pub fn delete_root(&mut self, key: &[u8])
        ensures
            final(self).prefix == old(self).prefix,
            final(self)@ == old(self)@.push(
                BatchOperationView {
                    column: Column::Roots,
                    key: old(self).prefix@ + key@,
                    value: None,
                },
            ),
    {
        let operation = BatchOperation {
            column: Column::Roots,
            key: make_prefixed_key(copy_bytes(self.prefix.as_slice()), key),
            value: None,
        };
        proof {
            lemma_batch_push(self.operations@, operation);
        }
        self.operations.push(operation);
    }
}

/// Wrapper to store items with prefixes: the direct storage context, whose
/// operations go straight to the key spaces, every key but a *meta* key
/// behind the context's prefix.
pub struct PrefixedRocksDbStorage<'db> {
    pub db: &'db mut Storage,
    pub prefix: Vec<u8>,
}

impl<'db> PrefixedRocksDbStorage<'db> {
    /// The key spaces behind the context are in order.
    pub open spec fn wf(&self) -> bool {
        self.db.wf()
    }

    /// The key spaces behind the context.
    pub open spec fn storage(&self) -> StorageView {
        self.db@
    }

    /// The *main* key space behind the context.
    pub open spec fn main_space(&self) -> KeySpace {
        self.db.main
    }

    /// Between `before` and `self` the key spaces changed to `storage`.
    pub open spec fn wrote(&self, before: &Self, storage: StorageView) -> bool {
        &&& self.wf()
        &&& self.storage() == storage
        &&& self.prefix == before.prefix
    }

    /// Wraps the key spaces to prepend `prefix` to each operation.
    pub fn new(db: &'db mut Storage, prefix: Vec<u8>) -> (r: Result<
        Self,
        PrefixedRocksDbStorageError,
    >)
        ensures
            r is Ok,
            *r.unwrap().db == *old(db),
            r.unwrap().prefix == prefix,
            *final(db) == *final(r.unwrap().db),
    {
        Ok(PrefixedRocksDbStorage { db, prefix })
    }

    /// Stores `value` under `key` in the *main* space.
    pub fn put(&mut self, key: &[u8], value: &[u8]) -> (r: Result<
        (),
        PrefixedRocksDbStorageError,
    >)
        requires
            old(self).wf(),
        ensures
            r is Ok,
            final(self).wrote(
                old(self),
                StorageView {
                    main: old(self).storage().main.insert(old(self).prefix@ + key@, value@),
                    ..old(self).storage()
                },
            ),
            *final(final(self).db) == *final(old(self).db),
    {
        let stored_key = make_prefixed_key(copy_bytes(self.prefix.as_slice()), key);
        self.db.main.put(stored_key, copy_bytes(value));
        Ok(())
    }

    /// Stores `value` under `key` in the *aux* space.
    pub fn put_aux(&mut self, key: &[u8], value: &[u8]) -> (r: Result<
        (),
        PrefixedRocksDbStorageError,
    >)
        requires
            old(self).wf(),
        ensures
            r is Ok,
            final(self).wrote(
                old(self),
                StorageView {
                    aux: old(self).storage().aux.insert(old(self).prefix@ + key@, value@),
                    ..old(self).storage()
                },
            ),
            *final(final(self).db) == *final(old(self).db),
    {
        let stored_key = make_prefixed_key(copy_bytes(self.prefix.as_slice()), key);
        self.db.aux.put(stored_key, copy_bytes(value));
        Ok(())
    }

    /// Stores `value` under `key` in the *roots* space.
    pub fn put_root(&mut self, key: &[u8], value: &[u8]) -> (r: Result<
        (),
        PrefixedRocksDbStorageError,
    >)
        requires
            old(self).wf(),
        ensures
            r is Ok,
            final(self).wrote(
                old(self),
                StorageView {
                    roots: old(self).storage().roots.insert(old(self).prefix@ + key@, value@),
                    ..old(self).storage()
                },
            ),
            *final(final(self).db) == *final(old(self).db),
    {
        let stored_key = make_prefixed_key(copy_bytes(self.prefix.as_slice()), key);
        self.db.roots.put(stored_key, copy_bytes(value));
        Ok(())
    }

    /// Removes what is under `key` in the *main* space.
    pub fn delete(&mut self, key: &[u8]) -> (r: Result<(), PrefixedRocksDbStorageError>)
        requires
            old(self).wf(),
        ensures
            r is Ok,
            final(self).wrote(
                old(self),
                StorageView {
                    main: old(self).storage().main.remove(old(self).prefix@ + key@),
                    ..old(self).storage()
                },
            ),
            *final(final(self).db) == *final(old(self).db),
    {
        let stored_key = make_prefixed_key(copy_bytes(self.prefix.as_slice()), key);
        self.db.main.delete(stored_key.as_slice());
        Ok(())
    }

    /// Removes what is under `key` in the *aux* space.
    pub fn delete_aux(&mut self, key: &[u8]) -> (r: Result<(), PrefixedRocksDbStorageError>)
        requires
            old(self).wf(),
        ensures
            r is Ok,
            final(self).wrote(
                old(self),
                StorageView {
                    aux: old(self).storage().aux.remove(old(self).prefix@ + key@),
                    ..old(self).storage()
                },
            ),
            *final(final(self).db) == *final(old(self).db),
    {
        let stored_key = make_prefixed_key(copy_bytes(self.prefix.as_slice()), key);
        self.db.aux.delete(stored_key.as_slice());
        Ok(())
    }

    /// Removes what is under `key` in the *roots* space.
    pub fn delete_root(&mut self, key: &[u8]) -> (r: Result<(), PrefixedRocksDbStorageError>)
        requires
            old(self).wf(),
        ensures
            r is Ok,
            final(self).wrote(
                old(self),
                StorageView {
                    roots: old(self).storage().roots.remove(old(self).prefix@ + key@),
                    ..old(self).storage()
                },
            ),
            *final(final(self).db) == *final(old(self).db),
    {
        let stored_key = make_prefixed_key(copy_bytes(self.prefix.as_slice()), key);
        self.db.roots.delete(stored_key.as_slice());
        Ok(())
    }

    /// The value under `key` in the *main* space; none if the key is absent.
    pub fn get(&self, key: &[u8]) -> (r: Result<Option<Vec<u8>>, PrefixedRocksDbStorageError>)
        requires
            self.wf(),
        ensures
            r is Ok,
            bytes_view(r.unwrap()) == stored(self.storage().main, self.prefix@ + key@),
    {
        let stored_key = make_prefixed_key(copy_bytes(self.prefix.as_slice()), key);
        Ok(self.db.main.get(stored_key.as_slice()))
    }

    /// The value under `key` in the *aux* space; none if the key is absent.
    pub fn get_aux(&self, key: &[u8]) -> (r: Result<Option<Vec<u8>>, PrefixedRocksDbStorageError>)
        requires
            self.wf(),
        ensures
            r is Ok,
            bytes_view(r.unwrap()) == stored(self.storage().aux, self.prefix@ + key@),
    {
        let stored_key = make_prefixed_key(copy_bytes(self.prefix.as_slice()), key);
        Ok(self.db.aux.get(stored_key.as_slice()))
    }

    /// The value under `key` in the *roots* space; none if the key is absent.
    pub fn get_root(&self, key: &[u8]) -> (r: Result<Option<Vec<u8>>, PrefixedRocksDbStorageError>)
        requires
            self.wf(),
        ensures
            r is Ok,
            bytes_view(r.unwrap()) == stored(self.storage().roots, self.prefix@ + key@),
    {
        let stored_key = make_prefixed_key(copy_bytes(self.prefix.as_slice()), key);
        Ok(self.db.roots.get(stored_key.as_slice()))
    }

    /// Stores `value` under `key` in the *meta* space, whose keys carry no prefix.
    pub fn put_meta(&mut self, key: &[u8], value: &[u8]) -> (r: Result<
        (),
        PrefixedRocksDbStorageError,
    >)
        requires
            old(self).wf(),
        ensures
            r is Ok,
            final(self).wrote(
                old(self),
                StorageView {
                    meta: old(self).storage().meta.insert(key@, value@),
                    ..old(self).storage()
                },
            ),
            *final(final(self).db) == *final(old(self).db),
    {
        let stored_key = copy_bytes(key);
        self.db.meta.put(stored_key, copy_bytes(value));
        Ok(())
    }

    /// Removes what is under `key` in the *meta* space, whose keys carry no prefix.
    pub fn delete_meta(&mut self, key: &[u8]) -> (r: Result<(), PrefixedRocksDbStorageError>)
        requires
            old(self).wf(),
        ensures
            r is Ok,
            final(self).wrote(
                old(self),
                StorageView {
                    meta: old(self).storage().meta.remove(key@),
                    ..old(self).storage()
                },
            ),
            *final(final(self).db) == *final(old(self).db),
    {
        let stored_key = copy_bytes(key);
        self.db.meta.delete(stored_key.as_slice());
        Ok(())
    }

    /// The value under `key` in the *meta* space, whose keys carry no prefix.
    pub fn get_meta(&self, key: &[u8]) -> (r: Result<Option<Vec<u8>>, PrefixedRocksDbStorageError>)
        requires
            self.wf(),
        ensures
            r is Ok,
            bytes_view(r.unwrap()) == stored(self.storage().meta, key@),
    {
        let stored_key = copy_bytes(key);
        Ok(self.db.meta.get(stored_key.as_slice()))
    }

    /// A batch for this context: it collects writes under the context's
    /// prefix.
    pub fn new_batch(&self) -> (r: Result<PrefixedRocksDbBatch, PrefixedRocksDbStorageError>)
        ensures
            r is Ok,
            r.unwrap().prefix@ == self.prefix@,
            r.unwrap()@ == Seq::<BatchOperationView>::empty(),
    {
        let batch = PrefixedRocksDbBatch {
            prefix: copy_bytes(self.prefix.as_slice()),
            operations: Vec::new(),
        };
        assert(batch@ =~= Seq::<BatchOperationView>::empty());
        Ok(batch)
    }

    /// Commits `batch`: all its writes reach the key spaces, in the order
    /// in which they were added.
    pub fn commit_batch(&mut self, batch: PrefixedRocksDbBatch) -> (r: Result<
        (),
        PrefixedRocksDbStorageError,
    >)
        requires
            old(self).wf(),
        ensures
            r is Ok,
            final(self).wrote(old(self), apply_batch(old(self).storage(), batch@)),
            *final(final(self).db) == *final(old(self).db),
    {
        let ghost start = self.storage();
        let ghost all = batch@;
        let mut i: usize = 0;
        assert(all.subrange(0, 0) =~= Seq::<BatchOperationView>::empty());
        while i < batch.operations.len()
            invariant
                i <= batch.operations.len(),
                all == batch@,
                self.wf(),
                self.prefix == old(self).prefix,
                self.storage() == apply_batch(start, all.subrange(0, i as int)),
                *final(self.db) == *final(old(self).db),
            decreases batch.operations.len() - i,
        {
            let operation = &batch.operations[i];
            proof {
                let next = all.subrange(0, i + 1);
                assert(next.drop_last() =~= all.subrange(0, i as int));
                assert(next.last() == operation@);
            }
            match (operation.column, &operation.value) {
                (Column::Main, Some(value)) => {
                    self.db.main.put(
                        copy_bytes(operation.key.as_slice()),
                        copy_bytes(value.as_slice()),
                    );
                },
                (Column::Main, None) => {
                    self.db.main.delete(operation.key.as_slice());
                },
                (Column::Aux, Some(value)) => {
                    self.db.aux.put(
                        copy_bytes(operation.key.as_slice()),
                        copy_bytes(value.as_slice()),
                    );
                },
                (Column::Aux, None) => {
                    self.db.aux.delete(operation.key.as_slice());
                },
                (Column::Roots, Some(value)) => {
                    self.db.roots.put(
                        copy_bytes(operation.key.as_slice()),
                        copy_bytes(value.as_slice()),
                    );
                },
                (Column::Roots, None) => {
                    self.db.roots.delete(operation.key.as_slice());
                },
            }
            i += 1;
        }
        assert(all.subrange(0, i as int) =~= all);
        Ok(())
    }

    /// Forces what was written to the backend. The key spaces hold every
    /// write as soon as it is made, so nothing is left to do.
    pub fn flush(&self) -> (r: Result<(), PrefixedRocksDbStorageError>)
        ensures
            r is Ok,
    {
        Ok(())
    }

    /// A cursor over the entries of the *main* space under the prefix.
    pub fn raw_iter(&self) -> (cursor: PrefixedRawIterator<'_>)
        ensures
            *cursor.space == self.main_space(),
            cursor.prefix@ == self.prefix@,
            cursor.position == 0,
    {
        PrefixedRawIterator {
            space: &self.db.main,
            prefix: copy_bytes(self.prefix.as_slice()),
            position: 0,
        }
    }
}

} // verus!
