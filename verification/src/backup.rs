//! The backup store: a bounded, ordered collection of save-code snapshots
//! together with its persisted text format.
//!
//! The store keeps at most `capacity` snapshots, oldest first; inserting into
//! a full store evicts exactly the oldest entry. The persisted form is one
//! line per snapshot, `<seconds since epoch> <save code>`, oldest first.
//! Encoding and parsing are verified inverses, so a store reloaded from what
//! it wrote is the store that was written.

use vstd::prelude::*;
use vstd::string::*;

use crate::clock;
use crate::codec::{
    dec_int, find_char, find_char_in, i64_to_dec, is_digit, lemma_dec_nat_shape,
    lemma_dec_roundtrip, lemma_find_char_at, parse_i64, parse_sint,
};

verus! {

/// Mathematical model of one snapshot.
pub struct BackupModel {
    pub saved_at: int,
    pub save_code: Seq<char>,
}

/// Save codes the store accepts: nonempty, and free of the record separator.
pub open spec fn valid_code(code: Seq<char>) -> bool {
    &&& code.len() > 0
    &&& forall|i: int| 0 <= i < code.len() ==> code[i] != '\n'
}

pub open spec fn model_wf(b: BackupModel) -> bool {
    &&& valid_code(b.save_code)
    &&& i64::MIN <= b.saved_at <= i64::MAX
}

/// One persisted record, without its terminating newline.
pub open spec fn line_of(b: BackupModel) -> Seq<char> {
    dec_int(b.saved_at) + seq![' '] + b.save_code
}

pub open spec fn encode_record(b: BackupModel) -> Seq<char> {
    line_of(b) + seq!['\n']
}

/// The persisted form of a whole store, oldest entry first.
pub open spec fn encode_store(s: Seq<BackupModel>) -> Seq<char>
    decreases s.len(),
{
    if s.len() == 0 {
        Seq::empty()
    } else {
        encode_record(s[0]) + encode_store(s.drop_first())
    }
}

/// The bound-and-evict rule: a full store loses its oldest entry before the
/// new one is appended.
pub open spec fn push_model(s: Seq<BackupModel>, cap: nat, b: BackupModel) -> Seq<BackupModel> {
    if s.len() < cap {
        s.push(b)
    } else {
        s.subrange(s.len() - cap + 1, s.len() as int).push(b)
    }
}

/// Parses one record line (no newline inside), or None if malformed.
pub open spec fn parse_record(line: Seq<char>) -> Option<BackupModel> {
    let sp = find_char(line, ' ') as int;
    if sp == 0 || sp >= line.len() {
        None
    } else {
        let num = line.subrange(0, sp);
        let code = line.subrange(sp + 1, line.len() as int);
        match parse_sint(num) {
            Some(v) => {
                if i64::MIN <= v <= i64::MAX && code.len() > 0 {
                    Some(BackupModel { saved_at: v, save_code: code })
                } else {
                    None
                }
            },
            None => None,
        }
    }
}

/// Parses a whole persisted store: newline-terminated records, oldest first.
pub open spec fn parse_store(s: Seq<char>) -> Option<Seq<BackupModel>>
    decreases s.len(),
{
    if s.len() == 0 {
        Some(Seq::empty())
    } else {
        let nl = find_char(s, '\n') as int;
        if nl >= s.len() {
            None
        } else {
            match parse_record(s.subrange(0, nl)) {
                Some(b) => match parse_store(s.subrange(nl + 1, s.len() as int)) {
                    Some(rest) => Some(seq![b] + rest),
                    None => None,
                },
                None => None,
            }
        }
    }
}

pub open spec fn models_of(v: Seq<Backup>) -> Seq<BackupModel> {
    v.map_values(|b: Backup| b@)
}

proof fn lemma_dec_int_chars(v: int)
    ensures
        dec_int(v).len() >= 1,
        forall|k: int|
            0 <= k < dec_int(v).len() ==> #[trigger] dec_int(v)[k] != ' ' && dec_int(v)[k]
                != '\n',
{
    let s = dec_int(v);
    if v < 0 {
        let m = (-v) as nat;
        lemma_dec_nat_shape(m);
        assert forall|k: int| 0 <= k < s.len() implies #[trigger] s[k] != ' ' && s[k] != '\n' by {
            if k == 0 {
                assert(s[0] == '-');
            } else {
                assert(s[k] == dec_nat_at(m, k - 1));
                assert(is_digit(s[k]));
            }
        }
    } else {
        lemma_dec_nat_shape(v as nat);
        assert forall|k: int| 0 <= k < s.len() implies #[trigger] s[k] != ' ' && s[k] != '\n' by {
            assert(is_digit(s[k]));
        }
    }
}

spec fn dec_nat_at(m: nat, k: int) -> char {
    crate::codec::dec_nat(m)[k]
}

/// Encoding one well-formed record then parsing it gives the record back.
proof fn lemma_parse_record_roundtrip(b: BackupModel)
    requires
        model_wf(b),
    ensures
        parse_record(line_of(b)) == Some(b),
{
    let d = dec_int(b.saved_at);
    let line = line_of(b);
    lemma_dec_int_chars(b.saved_at);
    assert forall|i: int| 0 <= i < d.len() implies line[i] != ' ' by {
        assert(line[i] == d[i]);
    }
    assert(line[d.len() as int] == ' ');
    lemma_find_char_at(line, ' ', d.len() as int);
    assert(line.subrange(0, d.len() as int) =~= d);
    assert(line.subrange(d.len() as int + 1, line.len() as int) =~= b.save_code);
    lemma_dec_roundtrip(b.saved_at);
}

/// Encoding a well-formed store then parsing it gives the store back.
pub proof fn lemma_store_roundtrip(m: Seq<BackupModel>)
    requires
        forall|i: int| 0 <= i < m.len() ==> model_wf(#[trigger] m[i]),
    ensures
        parse_store(encode_store(m)) == Some(m),
    decreases m.len(),
{
    if m.len() == 0 {
        assert(m =~= Seq::<BackupModel>::empty());
    } else {
        let b0 = m[0];
        let line = line_of(b0);
        let tail = encode_store(m.drop_first());
        let s = encode_store(m);
        assert(model_wf(b0));
        lemma_dec_int_chars(b0.saved_at);
        assert(s == (line + seq!['\n']) + tail);
        assert forall|i: int| 0 <= i < line.len() implies s[i] != '\n' by {
            assert(s[i] == line[i]);
            let d = dec_int(b0.saved_at);
            if i < d.len() {
                assert(line[i] == d[i]);
            } else if i == d.len() {
                assert(line[i] == ' ');
            } else {
                assert(line[i] == b0.save_code[i - d.len() - 1]);
            }
        }
        assert(s[line.len() as int] == '\n');
        lemma_find_char_at(s, '\n', line.len() as int);
        assert(s.subrange(0, line.len() as int) =~= line);
        assert(s.subrange(line.len() as int + 1, s.len() as int) =~= tail);
        lemma_parse_record_roundtrip(b0);
        assert forall|i: int| 0 <= i < m.drop_first().len() implies model_wf(
            #[trigger] m.drop_first()[i],
        ) by {
            assert(m.drop_first()[i] == m[i + 1]);
        }
        lemma_store_roundtrip(m.drop_first());
        assert(seq![b0] + m.drop_first() =~= m);
    }
}

/// Iterated bound-and-evict pushes.
pub open spec fn push_all(s: Seq<BackupModel>, cap: nat, bs: Seq<BackupModel>) -> Seq<BackupModel>
    decreases bs.len(),
{
    if bs.len() == 0 {
        s
    } else {
        push_all(push_model(s, cap, bs[0]), cap, bs.drop_first())
    }
}

/// After any run of pushes the store is the newest window of everything ever
/// held, in insertion order, never longer than the capacity.
pub proof fn lemma_push_all_window(s: Seq<BackupModel>, cap: nat, bs: Seq<BackupModel>)
    requires
        cap >= 1,
        s.len() <= cap,
    ensures
        push_all(s, cap, bs) == (s + bs).subrange(
            if s.len() + bs.len() <= cap {
                0
            } else {
                s.len() + bs.len() - cap
            },
            (s.len() + bs.len()) as int,
        ),
        push_all(s, cap, bs).len() <= cap,
    decreases bs.len(),
{
    let total = s.len() + bs.len();
    if bs.len() == 0 {
        assert((s + bs) =~= s);
        assert(s.subrange(0, s.len() as int) =~= s);
    } else {
        let b0 = bs[0];
        let s2 = push_model(s, cap, b0);
        assert(s2.len() <= cap);
        lemma_push_all_window(s2, cap, bs.drop_first());
        if s.len() < cap {
            assert(s2 =~= s.push(b0));
            assert(s2 + bs.drop_first() =~= s + bs);
        } else {
            assert(s.len() == cap);
            assert(s2 =~= s.subrange(1, s.len() as int).push(b0));
            assert(s2 + bs.drop_first() =~= (s + bs).subrange(1, total as int));
            let total2 = s2.len() + bs.drop_first().len();
            let start2: int = if total2 <= cap {
                0
            } else {
                total2 - cap
            };
            assert((s2 + bs.drop_first()).subrange(start2, total2 as int) =~= (s + bs).subrange(
                start2 + 1,
                total as int,
            ));
            assert(start2 + 1 == total - cap);
        }
    }
}

/// Law: pushing `cap` or more snapshots leaves exactly the `cap` most
/// recently pushed ones, oldest evicted first, in insertion order.
pub proof fn lemma_store_bound_fifo(s: Seq<BackupModel>, cap: nat, bs: Seq<BackupModel>)
    requires
        cap >= 1,
        s.len() <= cap,
        bs.len() >= cap,
    ensures
        push_all(s, cap, bs) == bs.subrange(bs.len() - cap, bs.len() as int),
        push_all(s, cap, bs).len() == cap,
{
    lemma_push_all_window(s, cap, bs);
    let total = s.len() + bs.len();
    let start: int = if total <= cap {
        0
    } else {
        total - cap
    };
    assert((s + bs).subrange(start, total as int) =~= bs.subrange(bs.len() - cap, bs.len() as int))
        by {
        assert forall|i: int| 0 <= i < cap implies #[trigger] (s + bs)[start + i] == bs[bs.len()
            - cap + i] by {
            assert(start + i >= s.len());
        }
    }
}

/// Appending one record extends the encoding by that record's bytes.
proof fn lemma_encode_store_snoc(m: Seq<BackupModel>, i: int)
    requires
        0 <= i < m.len(),
    ensures
        encode_store(m.subrange(0, i + 1)) == encode_store(m.subrange(0, i)) + encode_record(m[i]),
    decreases i,
{
    if i == 0 {
        reveal_with_fuel(encode_store, 3);
        let one = m.subrange(0, 1);
        assert(one[0] == m[0]);
        assert(one.drop_first() =~= Seq::<BackupModel>::empty());
        assert(m.subrange(0, 0) =~= Seq::<BackupModel>::empty());
        assert(encode_record(m[0]) + Seq::<char>::empty() =~= encode_record(m[0]));
        assert(Seq::<char>::empty() + encode_record(m[0]) =~= encode_record(m[0]));
    } else {
        let pre = m.subrange(0, i);
        let post = m.subrange(0, i + 1);
        let tail = m.drop_first();
        lemma_encode_store_snoc(tail, i - 1);
        assert(post.drop_first() =~= tail.subrange(0, i));
        assert(pre.drop_first() =~= tail.subrange(0, i - 1));
        assert(post[0] == m[0]);
        assert(pre[0] == m[0]);
        assert(tail[i - 1] == m[i]);
        let a = encode_record(m[0]);
        let mid = encode_store(tail.subrange(0, i - 1));
        let cc = encode_record(m[i]);
        assert(encode_store(post) == a + (mid + cc));
        assert(encode_store(pre) == a + mid);
        assert((a + mid) + cc =~= a + (mid + cc));
    }
}

/// The persisted text grows by exactly one record per appended snapshot, so
/// an append-only writer produces the same file as a whole rewrite.
pub proof fn lemma_encode_store_push(m: Seq<BackupModel>, b: BackupModel)
    ensures
        encode_store(m.push(b)) == encode_store(m) + encode_record(b),
{
    lemma_encode_store_snoc(m.push(b), m.len() as int);
    assert(m.push(b).subrange(0, m.len() as int) =~= m);
    assert(m.push(b).subrange(0, m.len() as int + 1) =~= m.push(b));
    assert(m.push(b)[m.len() as int] == b);
}

/// What a well-formed store guarantees of its model: the bound holds and
/// every entry could be framed as a record.
pub proof fn lemma_backups_wf(s: &Backups)
    requires
        s.wf(),
    ensures
        s.cap() >= 1,
        s@.len() <= s.cap(),
        forall|i: int| 0 <= i < s@.len() ==> model_wf(#[trigger] s@[i]),
{
}

#[derive(Debug, Clone, Copy, PartialEq, Eq)]
pub enum BackupError {
    EncodeError,
    DecodeError,
    IoError,
}

/// One snapshot: capture time in seconds since the epoch, and the opaque
/// save code the game session can be resumed from.
#[derive(Debug)]
pub struct Backup {
    saved_at: i64,
    pub save_code: String,
}

impl View for Backup {
    type V = BackupModel;

    closed spec fn view(&self) -> BackupModel {
        BackupModel { saved_at: self.saved_at as int, save_code: self.save_code@ }
    }
}

impl Backup {
    /// A snapshot of the given save code, captured now.
    pub fn new(save_code: String) -> (b: Backup)
        ensures
            b@.save_code == save_code@,
    {
        Backup { saved_at: clock::now_epoch(), save_code }
    }

    /// The capture time rendered in the named timezone; None exactly for a
    /// zone name outside the timezone database, or an instant the calendar
    /// cannot place.
    pub fn saved_at(&self, timezone: &str) -> (r: Option<String>)
        ensures
            r is Some <==> clock::tz_known(timezone@) && clock::epoch_displayable(
                self@.saved_at,
            ),
            r matches Some(s) ==> s@ == clock::zoned_display_of(self@.saved_at, timezone@),
    {
        clock::zoned_display(self.saved_at, timezone)
    }
}

/// The bounded, ordered store of snapshots, oldest first.
#[derive(Debug)]
pub struct Backups {
    capacity: usize,
    entries: Vec<Backup>,
}

impl View for Backups {
    type V = Seq<BackupModel>;

    closed spec fn view(&self) -> Seq<BackupModel> {
        models_of(self.entries@)
    }
}

impl Backups {
    pub closed spec fn cap(&self) -> nat {
        self.capacity as nat
    }

    pub closed spec fn wf(&self) -> bool {
        &&& self.capacity >= 1
        &&& self.entries@.len() <= self.capacity
        &&& forall|i: int| 0 <= i < self.entries@.len() ==> model_wf(#[trigger] self.entries@[i]@)
    }

    /// An empty store with the given retention bound.
    pub fn new(capacity: usize) -> (s: Backups)
        requires
            capacity >= 1,
        ensures
            s.wf(),
            s@ == Seq::<BackupModel>::empty(),
            s.cap() == capacity as nat,
    {
        let s = Backups { capacity, entries: Vec::new() };
        proof {
            assert(s@ =~= Seq::<BackupModel>::empty());
        }
        s
    }

    pub fn capacity(&self) -> (c: usize)
        ensures
            c as nat == self.cap(),
    {
        self.capacity
    }

    pub fn len(&self) -> (n: usize)
        ensures
            n as nat == self@.len(),
    {
        self.entries.len()
    }

    /// Appends a snapshot under the bound-and-evict rule. Fails, leaving the
    /// store unchanged, exactly when the save code cannot be framed as one
    /// record: empty, or holding the record separator.
    pub fn add(&mut self, backup: Backup) -> (r: Result<(), BackupError>)
        requires
            old(self).wf(),
        ensures
            final(self).wf(),
            final(self).cap() == old(self).cap(),
            r is Ok <==> valid_code(backup@.save_code),
            r is Ok ==> final(self)@ == push_model(old(self)@, old(self).cap(), backup@),
            r is Err ==> final(self)@ == old(self)@ && r == Err::<(), BackupError>(
                BackupError::EncodeError,
            ),
    {
        if !code_ok(backup.save_code.as_str()) {
            return Err(BackupError::EncodeError);
        }
        let ghost pre = self.entries@;
        if self.entries.len() == self.capacity {
            self.entries.remove(0);
            proof {
                assert(self.entries@ =~= pre.subrange(1, pre.len() as int));
            }
        }
        let ghost mid = self.entries@;
        self.entries.push(backup);
        proof {
            assert(models_of(self.entries@) =~= models_of(mid).push(backup@));
            if pre.len() < old(self).cap() {
                assert(models_of(pre).push(backup@) =~= push_model(
                    models_of(pre),
                    old(self).cap(),
                    backup@,
                ));
            } else {
                assert(models_of(mid) =~= models_of(pre).subrange(
                    models_of(pre).len() - old(self).cap() + 1,
                    models_of(pre).len() as int,
                ));
            }
        }
        Ok(())
    }

    /// The most recently pushed snapshot, if any.
    pub fn latest_backup(&self) -> (r: Option<&Backup>)
        ensures
            r is Some <==> self@.len() > 0,
            r matches Some(b) ==> b@ == self@.last(),
    {
        if self.entries.len() == 0 {
            None
        } else {
            Some(&self.entries[self.entries.len() - 1])
        }
    }

    /// The save code of the most recent snapshot, cloned for resuming.
    pub fn latest_code(&self) -> (r: Option<String>)
        ensures
            r is Some <==> self@.len() > 0,
            r matches Some(code) ==> code@ == self@.last().save_code,
    {
        match self.latest_backup() {
            None => None,
            Some(b) => Some(b.save_code.clone()),
        }
    }

    /// The persisted text of the whole store.
    pub fn encode(&self) -> (r: String)
        requires
            self.wf(),
        ensures
            r@ == encode_store(self@),
    {
        let mut out = String::new();
        let mut i: usize = 0;
        proof {
            assert(self@.subrange(0, 0) =~= Seq::<BackupModel>::empty());
        }
        while i < self.entries.len()
            invariant
                self.wf(),
                i <= self.entries@.len(),
                out@ == encode_store(self@.subrange(0, i as int)),
            decreases self.entries@.len() - i,
        {
            let e = &self.entries[i];
            let num = i64_to_dec(e.saved_at);
            out.append(num.as_str());
            out.append(" ");
            out.append(e.save_code.as_str());
            out.append("\n");
            proof {
                reveal_strlit(" ");
                reveal_strlit("\n");
                assert(" "@ =~= seq![' ']);
                assert("\n"@ =~= seq!['\n']);
                assert(self@[i as int] == self.entries@[i as int]@);
                assert(out@ =~= encode_store(self@.subrange(0, i as int)) + encode_record(
                    self@[i as int],
                ));
                lemma_encode_store_snoc(self@, i as int);
            }
            i = i + 1;
        }
        proof {
            assert(self@.subrange(0, self@.len() as int) =~= self@);
        }
        out
    }

    /// Rebuilds a store from the persisted text, or from nothing.
    ///
    /// Absent storage gives an empty store. Present but malformed text fails
    /// with a decode error. Well-formed text gives its records, oldest first;
    /// if they exceed the configured bound, only the newest `capacity` are
    /// kept.
    #[verifier::loop_isolation(false)]
    pub fn load(contents: Option<&str>, capacity: usize) -> (r: Result<Backups, BackupError>)
        requires
            capacity >= 1,
        ensures
            contents is None ==> (r matches Ok(s) && s.wf() && s@ == Seq::<
                BackupModel,
            >::empty() && s.cap() == capacity as nat),
            contents matches Some(c) ==> match parse_store(c@) {
                Some(m) => r matches Ok(s) && s.wf() && s.cap() == capacity as nat && s@
                    == m.subrange(
                    if m.len() <= capacity as nat {
                        0
                    } else {
                        m.len() - capacity as nat
                    },
                    m.len() as int,
                ),
                None => r == Err::<Backups, BackupError>(BackupError::DecodeError),
            },
    {
        let c: &str = match contents {
            None => {
                return Ok(Backups::new(capacity));
            },
            Some(c) => c,
        };
        proof {
            assert(contents is Some);
        }
        let ghost full = c@;
        let n = c.unicode_len();
        let mut entries: Vec<Backup> = Vec::new();
        let mut i: usize = 0;
        proof {
            assert(full.subrange(0, n as int) =~= full);
            assert(models_of(entries@) =~= Seq::<BackupModel>::empty());
            match parse_store(full) {
                Some(rest) => {
                    assert(Seq::<BackupModel>::empty() + rest =~= rest);
                },
                None => {},
            }
        }
        while i < n
            invariant
                i <= n,
                n as int == full.len(),
                full == c@,
                forall|k: int| 0 <= k < entries@.len() ==> model_wf(#[trigger] entries@[k]@),
                match parse_store(full.subrange(i as int, n as int)) {
                    Some(rest) => parse_store(full) == Some(models_of(entries@) + rest),
                    None => parse_store(full) is None,
                },
            decreases n - i,
        {
            let ghost suffix = full.subrange(i as int, n as int);
            let nl = find_char_in(c, i, '\n');
            proof {
                assert forall|j: int| 0 <= j < nl - i implies suffix[j] != '\n' by {
                    assert(suffix[j] == full[i + j]);
                }
                if (nl as int) < n as int {
                    assert(suffix[nl - i] == full[nl as int]);
                }
                lemma_find_char_at(suffix, '\n', nl - i);
            }
            if nl == n {
                proof {
                    assert(parse_store(suffix) is None);
                    assert(parse_store(full) is None);
                }
                return Err(BackupError::DecodeError);
            }
            let line = c.substring_char(i, nl);
            proof {
                assert(line@ =~= suffix.subrange(0, nl - i));
            }
            let parsed = parse_line(line);
            let b = match parsed {
                None => {
                    proof {
                        assert(parse_record(suffix.subrange(0, nl - i)) is None);
                        assert(parse_store(suffix) is None);
                        assert(parse_store(full) is None);
                    }
                    return Err(BackupError::DecodeError);
                },
                Some(b) => b,
            };
            proof {
                // the parsed save code is a slice of a line free of newlines
                let spec_b = parse_record(line@).unwrap();
                let sp = find_char(line@, ' ') as int;
                assert(spec_b.save_code == line@.subrange(sp + 1, line@.len() as int));
                assert forall|j: int| 0 <= j < spec_b.save_code.len() implies spec_b.save_code[j]
                    != '\n' by {
                    assert(spec_b.save_code[j] == line@[sp + 1 + j]);
                    assert(line@[sp + 1 + j] == suffix[sp + 1 + j]);
                }
                assert(model_wf(b@));
            }
            let ghost pre_entries = entries@;
            let ghost i0 = i as int;
            entries.push(b);
            i = nl + 1;
            proof {
                let suffix2 = full.subrange(i as int, n as int);
                assert(suffix.subrange(nl as int - i0 + 1, suffix.len() as int) =~= suffix2);
                assert(models_of(entries@) =~= models_of(pre_entries).push(b@));
                match parse_store(suffix2) {
                    Some(rest2) => {
                        assert(parse_store(suffix) == Some(seq![b@] + rest2));
                        assert(models_of(pre_entries) + (seq![b@] + rest2) =~= models_of(
                            entries@,
                        ) + rest2);
                    },
                    None => {},
                }
            }
        }
        proof {
            assert(full.subrange(n as int, n as int) =~= Seq::<char>::empty());
            assert(models_of(entries@) + Seq::<BackupModel>::empty() =~= models_of(entries@));
        }
        let ghost full_models = models_of(entries@);
        proof {
            assert(full_models.subrange(
                full_models.len() - entries@.len(),
                full_models.len() as int,
            ) =~= full_models);
        }
        while entries.len() > capacity
            invariant
                entries@.len() <= full_models.len(),
                entries@.len() == full_models.len() || entries@.len() >= capacity,
                parse_store(full) == Some(full_models),
                forall|k: int| 0 <= k < entries@.len() ==> model_wf(#[trigger] entries@[k]@),
                models_of(entries@) == full_models.subrange(
                    full_models.len() - entries@.len(),
                    full_models.len() as int,
                ),
            decreases entries@.len(),
        {
            let ghost pre_entries = entries@;
            entries.remove(0);
            proof {
                assert(entries@ =~= pre_entries.subrange(1, pre_entries.len() as int));
                assert(models_of(entries@) =~= models_of(pre_entries).subrange(
                    1,
                    models_of(pre_entries).len() as int,
                ));
                assert(models_of(entries@) =~= full_models.subrange(
                    full_models.len() - entries@.len(),
                    full_models.len() as int,
                ));
            }
        }
        let s = Backups { capacity, entries };
        proof {
            if full_models.len() <= capacity as nat {
                assert(s.entries@.len() == full_models.len());
                assert(full_models.subrange(0, full_models.len() as int) =~= full_models);
            }
        }
        Ok(s)
    }
}

/// Whether the store can frame this save code as one record.
fn code_ok(code: &str) -> (b: bool)
    ensures
        b == valid_code(code@),
{
    let n = code.unicode_len();
    if n == 0 {
        return false;
    }
    let nl = find_char_in(code, 0, '\n');
    nl == n
}

/// Parses one record line; inverse of the record encoding.
fn parse_line(line: &str) -> (r: Option<Backup>)
    ensures
        r is Some <==> parse_record(line@) is Some,
        r matches Some(b) ==> parse_record(line@) == Some(b@),
{
    let n = line.unicode_len();
    let sp = find_char_in(line, 0, ' ');
    proof {
        lemma_find_char_at(line@, ' ', sp as int);
    }
    if sp == 0 || sp >= n {
        return None;
    }
    let num = line.substring_char(0, sp);
    proof {
        assert(num@ =~= line@.subrange(0, sp as int));
    }
    let v = match parse_i64(num) {
        None => {
            return None;
        },
        Some(v) => v,
    };
    if sp + 1 >= n {
        return None;
    }
    let code = line.substring_char(sp + 1, n);
    proof {
        assert(code@ =~= line@.subrange(sp as int + 1, line@.len() as int));
    }
    let b = Backup { saved_at: v, save_code: code.to_owned() };
    Some(b)
}

} // verus!
