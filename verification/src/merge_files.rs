//! The files that a merge plan touches: each is loaded once, changed in memory,
//! and written only if something in it changed.

use vstd::prelude::*;
use crate::error::{Error, ErrorView};
use crate::merge::{MergeAction, MergeSummary};
use crate::merge_apply::{
    apply_income_action, apply_row_action, file_key, in_a_file, income_written, listed, written,
    FileKey, WriteView,
};
use crate::sync::ChangeTable;
use crate::table::{Table, TableView};
use crate::text::{decimal, push_decimal};

verus! {

/// A loaded file and the changes applied to it so far, not yet written. For
/// investments there are two tables, holdings and prices, written separately.
#[derive(Debug)]
pub struct Prepared {
    pub key: FileKey,
    pub main: Table,
    /// The prices of investments; unused for other files.
    pub prices: Table,
    /// Whether the main table changed.
    pub changed: bool,
    /// Whether the table of prices changed.
    pub prices_changed: bool,
}

/// What a [`Prepared`] file holds.
pub struct PreparedView {
    pub key: FileKey,
    pub main: TableView,
    pub prices: TableView,
    pub changed: bool,
    pub prices_changed: bool,
}

impl View for Prepared {
    type V = PreparedView;

    open spec fn view(&self) -> PreparedView {
        PreparedView {
            key: self.key,
            main: self.main@,
            prices: self.prices@,
            changed: self.changed,
            prices_changed: self.prices_changed,
        }
    }
}

impl PreparedView {
    /// The file after one write, or why the write does not fit.
    pub open spec fn after(
        self,
        table: ChangeTable,
        row_id: Seq<char>,
        write: WriteView,
    ) -> Result<PreparedView, ErrorView> {
        if self.key is Investments && table is InvestmentsPrices {
            match written(self.prices, table, row_id, write) {
                Ok((prices, changed)) => Ok(
                    PreparedView { prices, prices_changed: self.prices_changed || changed, ..self },
                ),
                Err(e) => Err(e),
            }
        } else if self.key is Cashflow {
            match income_written(self.main, table, row_id, write) {
                Ok((main, changed)) => Ok(
                    PreparedView { main, changed: self.changed || changed, ..self },
                ),
                Err(e) => Err(e),
            }
        } else {
            match written(self.main, table, row_id, write) {
                Ok((main, changed)) => Ok(
                    PreparedView { main, changed: self.changed || changed, ..self },
                ),
                Err(e) => Err(e),
            }
        }
    }

    /// The number of files to write.
    pub open spec fn files_to_write(self) -> nat {
        (if self.changed {
            1nat
        } else {
            0
        }) + (if self.prices_changed && self.key is Investments {
            1nat
        } else {
            0
        })
    }
}

impl Prepared {
    /// A file as it was loaded.
    pub fn new(key: FileKey, main: Table, prices: Table) -> (r: Self)
        ensures
            r@ == (PreparedView {
                key,
                main: main@,
                prices: prices@,
                changed: false,
                prices_changed: false,
            }),
    {
        Prepared { key, main, prices, changed: false, prices_changed: false }
    }

    /// Apply one write to the table it targets, and note whether it changed. On
    /// an error the file stays as it is.
    pub fn apply(&mut self, action: &MergeAction) -> (r: Result<(), Error>)
        requires
            in_a_file(action.table),
        ensures
            match r {
                Ok(()) => old(self)@.after(action.table, action.row_id@, listed(action.action))
                    == Ok::<PreparedView, ErrorView>(final(self)@),
                Err(e) => old(self)@.after(action.table, action.row_id@, listed(action.action))
                    == Err::<PreparedView, ErrorView>(e@) && final(self)@ == old(self)@,
            },
    {
        let to_prices = match (&self.key, &action.table) {
            (FileKey::Investments(_), ChangeTable::InvestmentsPrices { .. }) => true,
            _ => false,
        };
        if to_prices {
            let changed = apply_row_action(
                &mut self.prices,
                &action.table,
                action.row_id.as_str(),
                &action.action,
            )?;
            if changed {
                self.prices_changed = true;
            }
            return Ok(());
        }
        let changed = match &self.key {
            FileKey::Cashflow(_) => apply_income_action(
                &mut self.main,
                &action.table,
                action.row_id.as_str(),
                &action.action,
            )?,
            _ => apply_row_action(
                &mut self.main,
                &action.table,
                action.row_id.as_str(),
                &action.action,
            )?,
        };
        if changed {
            self.changed = true;
        }
        Ok(())
    }

    /// Whether the derived income row has to be computed again before the file is
    /// written: an income cell of it changed.
    pub fn needs_income(&self) -> (r: bool)
        ensures
            r == (self@.key is Cashflow && self@.changed),
    {
        matches!(self.key, FileKey::Cashflow(_)) && self.changed
    }

    /// The number of files to write: one for each table that changed.
    pub fn files_to_write(&self) -> (r: usize)
        ensures
            r == self@.files_to_write(),
    {
        let mut count: usize = 0;
        if self.changed {
            count = count + 1;
        }
        if self.prices_changed && matches!(self.key, FileKey::Investments(_)) {
            count = count + 1;
        }
        count
    }
}

/// Every file a plan touches, loaded once, in the order the plan first touches
/// it.
#[derive(Debug)]
pub struct PreparedFiles {
    files: Vec<Prepared>,
}

/// What the files hold.
pub open spec fn file_views(files: Seq<Prepared>) -> Seq<PreparedView> {
    Seq::new(files.len(), |i: int| files[i]@)
}

/// Whether no file is loaded twice.
pub open spec fn keys_differ(files: Seq<PreparedView>) -> bool {
    forall|i: int, j: int|
        0 <= i < j < files.len() ==> (#[trigger] files[i]).key != (#[trigger] files[j]).key
}

/// Whether a file is loaded.
pub open spec fn is_loaded(files: Seq<PreparedView>, key: FileKey) -> bool {
    exists|i: int| 0 <= i < files.len() && (#[trigger] files[i]).key == key
}

/// Where a loaded file stands.
pub open spec fn slot_of(files: Seq<PreparedView>, key: FileKey) -> int {
    choose|i: int| 0 <= i < files.len() && (#[trigger] files[i]).key == key
}

/// The number of files to write, among the first `n`.
pub open spec fn total_to_write(files: Seq<PreparedView>, n: int) -> nat
    decreases n,
{
    if n <= 0 {
        0
    } else {
        total_to_write(files, n - 1) + files[n - 1].files_to_write()
    }
}

impl View for PreparedFiles {
    type V = Seq<PreparedView>;

    closed spec fn view(&self) -> Seq<PreparedView> {
        file_views(self.files@)
    }
}

impl PreparedFiles {
    /// No file is loaded twice.
    #[verifier::type_invariant]
    pub open spec fn is_indexed(self) -> bool {
        keys_differ(self@)
    }

    /// No file loaded yet.
    pub fn new() -> (r: Self)
        ensures
            r@ == Seq::<PreparedView>::empty(),
    {
        let files: Vec<Prepared> = Vec::new();
        assert(file_views(files@) =~= Seq::empty());
        PreparedFiles { files }
    }

    /// The number of files loaded.
    pub fn len(&self) -> (r: usize)
        ensures
            r == self@.len(),
    {
        self.files.len()
    }

    /// The file at a position.
    pub fn file_at(&self, i: usize) -> (r: &Prepared)
        requires
            i < self@.len(),
        ensures
            r@ == self@[i as int],
    {
        &self.files[i]
    }

    fn find(&self, key: &FileKey) -> (r: Option<usize>)
        ensures
            match r {
                Some(i) => i < self@.len() && self@[i as int].key == *key && is_loaded(self@, *key)
                    && slot_of(self@, *key) == i,
                None => !is_loaded(self@, *key),
            },
    {
        proof {
            use_type_invariant(self);
        }
        let mut i: usize = 0;
        while i < self.files.len()
            invariant
                i <= self.files.len(),
                keys_differ(self@),
                forall|k: int| 0 <= k < i ==> (#[trigger] self@[k]).key != *key,
            decreases self.files.len() - i,
        {
            assert(self@[i as int] == self.files@[i as int]@);
            if self.files[i].key == *key {
                proof {
                    let k = slot_of(self@, *key);
                    assert(self@[i as int].key == *key);
                    if k < i {
                        assert(self@[k].key != self@[i as int].key);
                    } else if i < k {
                        assert(self@[i as int].key != self@[k].key);
                    }
                }
                return Some(i);
            }
            i = i + 1;
        }
        None
    }

    /// The file that has to be loaded before a write can be applied, if it is not
    /// loaded yet. A write to the settings needs no file.
    pub fn missing(&self, action: &MergeAction) -> (r: Option<FileKey>)
        ensures
            match file_key(action.table) {
                Some(key) => r == if is_loaded(self@, key) {
                    None::<FileKey>
                } else {
                    Some(key)
                },
                None => r is None,
            },
    {
        match FileKey::of(&action.table) {
            Some(key) => match self.find(&key) {
                Some(_) => None,
                None => Some(key),
            },
            None => None,
        }
    }

    /// Add a file as it was loaded.
    pub fn add(&mut self, file: Prepared)
        requires
            !is_loaded(old(self)@, file@.key),
        ensures
            final(self)@ == old(self)@.push(file@),
    {
        proof {
            use_type_invariant(&*self);
        }
        let ghost before = self@;
        let ghost added = file@;
        let mut files: Vec<Prepared> = Vec::new();
        assert(file_views(files@) =~= Seq::empty());
        core::mem::swap(&mut self.files, &mut files);
        files.push(file);
        proof {
            let after = file_views(files@);
            assert(after =~= before.push(added));
            assert forall|i: int, j: int| 0 <= i < j < after.len() implies (
            #[trigger] after[i]).key != (#[trigger] after[j]).key by {
                if j < before.len() {
                    assert(before[i].key != before[j].key);
                } else {
                    assert(after[i] == before[i]);
                }
            }
        }
        self.files = files;
    }

    /// Apply one write to its file, which has to be loaded. On an error the files
    /// stay as they are.
    pub fn carry_out(&mut self, action: &MergeAction) -> (r: Result<(), Error>)
        requires
            in_a_file(action.table),
            is_loaded(old(self)@, file_key(action.table)->0),
        ensures
            ({
                let slot = slot_of(old(self)@, file_key(action.table)->0);
                let want = old(self)@[slot].after(
                    action.table,
                    action.row_id@,
                    listed(action.action),
                );
                match r {
                    Ok(()) => want matches Ok(file) && final(self)@ == old(self)@.update(
                        slot,
                        file,
                    ),
                    Err(e) => want == Err::<PreparedView, ErrorView>(e@) && final(self)@ == old(
                        self,
                    )@,
                }
            }),
    {
        proof {
            use_type_invariant(&*self);
        }
        let ghost before = self@;
        let key = match FileKey::of(&action.table) {
            Some(key) => key,
            None => {
                return Ok(());
            },
        };
        let slot: usize = match self.find(&key) {
            Some(slot) => slot,
            None => {
                return Ok(());
            },
        };
        let mut files: Vec<Prepared> = Vec::new();
        assert(file_views(files@) =~= Seq::empty());
        core::mem::swap(&mut self.files, &mut files);
        let mut file = files.remove(slot);
        let ghost rest = file_views(files@);
        assert(file@ == before[slot as int]);
        let outcome = file.apply(action);
        files.insert(slot, file);
        proof {
            let after = file_views(files@);
            assert(after =~= before.update(slot as int, file@));
            assert(file@.key == before[slot as int].key);
            assert forall|i: int, j: int| 0 <= i < j < after.len() implies (
            #[trigger] after[i]).key != (#[trigger] after[j]).key by {
                assert(before[i].key != before[j].key);
            }
            if outcome is Err {
                assert(after =~= before);
            }
        }
        self.files = files;
        outcome
    }

    /// The number of files to write.
    pub fn files_to_write(&self) -> (r: usize)
        requires
            2 * self@.len() <= usize::MAX,
        ensures
            r == total_to_write(self@, self@.len() as int),
    {
        let mut count: usize = 0;
        let mut i: usize = 0;
        while i < self.files.len()
            invariant
                i <= self.files.len(),
                2 * self@.len() <= usize::MAX,
                self@.len() == self.files.len(),
                count == total_to_write(self@, i as int),
                count <= 2 * i,
            decreases self.files.len() - i,
        {
            assert(self@[i as int] == self.files@[i as int]@);
            count = count + self.files[i].files_to_write();
            i = i + 1;
        }
        count
    }

    /// Give a cashflow file its recomputed table.
    pub fn replace_main(&mut self, i: usize, main: Table)
        requires
            i < old(self)@.len(),
        ensures
            final(self)@ == old(self)@.update(
                i as int,
                PreparedView { main: main@, ..old(self)@[i as int] },
            ),
    {
        proof {
            use_type_invariant(&*self);
        }
        let ghost before = self@;
        let ghost put = main@;
        let mut files: Vec<Prepared> = Vec::new();
        assert(file_views(files@) =~= Seq::empty());
        core::mem::swap(&mut self.files, &mut files);
        let mut file = files.remove(i);
        file.main = main;
        files.insert(i, file);
        proof {
            let after = file_views(files@);
            assert(after =~= before.update(
                i as int,
                PreparedView { main: put, ..before[i as int] },
            ));
            assert forall|a: int, b: int| 0 <= a < b < after.len() implies (
            #[trigger] after[a]).key != (#[trigger] after[b]).key by {
                assert(before[a].key != before[b].key);
            }
        }
        self.files = files;
    }
}

/// What one merge did, in counts. Holds no value of a row.
#[derive(Clone, Debug, PartialEq, Eq)]
pub struct MergeReport {
    pub summary: MergeSummary,
    /// Table files written.
    pub files_written: usize,
    /// Remote entries appended to this device's log.
    pub entries_stored: usize,
    /// Lines of the local log that could not be read.
    pub local_corrupt_lines: usize,
    /// How many of those were skipped for being too long.
    pub local_oversized_lines: usize,
    /// Whether the local log ended in an append that did not finish.
    pub local_unfinished_tail: bool,
    /// How far the log's clock is ahead of the wall clock, in milliseconds.
    pub clock_ahead_of_wall_by: Option<i64>,
}

impl MergeReport {
    /// The report as a line of text.
    pub open spec fn spec_text(self) -> Seq<char> {
        let counts = "Merge: "@ + decimal(self.summary.remote_entries as nat) + " remote changes, "@
            + decimal(self.summary.applied as nat) + " applied, "@ + decimal(
            self.summary.already_known as nat,
        ) + " already known, "@ + decimal(self.summary.skipped as nat) + " skipped, "@ + decimal(
            self.summary.unplaceable as nat,
        ) + " unplaceable; "@ + decimal(self.summary.rows_changed as nat) + " rows and "@ + decimal(
            self.files_written as nat,
        ) + " files written, "@ + decimal(self.entries_stored as nat) + " changes stored."@;
        if self.local_corrupt_lines > 0 {
            counts + " The local change log has "@ + decimal(self.local_corrupt_lines as nat)
                + " unreadable lines."@
        } else {
            counts
        }
    }

    /// The report as a line of text.
    pub fn text(&self) -> (r: String)
        ensures
            r@ == self.spec_text(),
    {
        let mut out = "Merge: ".to_owned();
        push_decimal(&mut out, self.summary.remote_entries as u64);
        out.append(" remote changes, ");
        push_decimal(&mut out, self.summary.applied as u64);
        out.append(" applied, ");
        push_decimal(&mut out, self.summary.already_known as u64);
        out.append(" already known, ");
        push_decimal(&mut out, self.summary.skipped as u64);
        out.append(" skipped, ");
        push_decimal(&mut out, self.summary.unplaceable as u64);
        out.append(" unplaceable; ");
        push_decimal(&mut out, self.summary.rows_changed as u64);
        out.append(" rows and ");
        push_decimal(&mut out, self.files_written as u64);
        out.append(" files written, ");
        push_decimal(&mut out, self.entries_stored as u64);
        out.append(" changes stored.");
        if self.local_corrupt_lines > 0 {
            out.append(" The local change log has ");
            push_decimal(&mut out, self.local_corrupt_lines as u64);
            out.append(" unreadable lines.");
        }
        out
    }
}

} // verus!
