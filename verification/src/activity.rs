use vstd::prelude::*;
use crate::text::push_char;

verus! {

/// Relationship type between a predecessor and its successor.
#[derive(Debug, Clone, Copy, PartialEq, Eq, Structural)]
pub enum RelType {
    /// Finish-to-Start (the default)
    FS,
    /// Start-to-Start
    SS,
    /// Finish-to-Finish
    FF,
    /// Start-to-Finish
    SF,
}

impl RelType {
    /// The two-letter code of the relationship.
    pub open spec fn code(self) -> Seq<char> {
        match self {
            RelType::FS => seq!['F', 'S'],
            RelType::SS => seq!['S', 'S'],
            RelType::FF => seq!['F', 'F'],
            RelType::SF => seq!['S', 'F'],
        }
    }

    /// The two-letter code as text ("FS", "SS", "FF" or "SF").
    pub fn to_string(&self) -> (s: String)
        ensures
            s@ == self.code(),
    {
        let lit = match self {
            RelType::FS => "FS",
            RelType::SS => "SS",
            RelType::FF => "FF",
            RelType::SF => "SF",
        };
        proof {
            reveal_strlit("FS");
            reveal_strlit("SS");
            reveal_strlit("FF");
            reveal_strlit("SF");
        }
        lit.to_string()
    }
}

impl Default for RelType {
    fn default() -> (r: Self)
        ensures
            r == RelType::FS,
    {
        RelType::FS
    }
}

/// A predecessor relationship with a lag in days (negative: a lead).
#[derive(Debug, Clone)]
pub struct Predecessor {
    pub activity_id: String,
    pub rel_type: RelType,
    pub lag: i32,
}

impl Predecessor {
    /// A field-by-field copy.
    pub fn duplicate(&self) -> (r: Self)
        ensures
            r == *self,
    {
        Predecessor { activity_id: self.activity_id.clone(), rel_type: self.rel_type, lag: self.lag }
    }
}

/// The CPM dates and floats of one activity, in whole days.
#[derive(Debug, Clone, Copy, PartialEq, Eq, Structural)]
pub struct CpmResult {
    /// Earliest start
    pub es: i128,
    /// Earliest finish
    pub ef: i128,
    /// Latest start
    pub ls: i128,
    /// Latest finish
    pub lf: i128,
    /// Total float
    pub tf: i128,
    /// Free float
    pub ff: i128,
    pub critical: bool,
}

impl CpmResult {
    /// The result of an activity that has not been scheduled: all zero.
    pub open spec fn blank() -> CpmResult {
        CpmResult { es: 0, ef: 0, ls: 0, lf: 0, tf: 0, ff: 0, critical: false }
    }
}

impl Default for CpmResult {
    fn default() -> (r: Self)
        ensures
            r == CpmResult::blank(),
    {
        CpmResult { es: 0, ef: 0, ls: 0, lf: 0, tf: 0, ff: 0, critical: false }
    }
}

/// An activity (task) of the project schedule. Durations are whole working days.
#[derive(Debug, Clone)]
pub struct Activity {
    pub id: String,
    pub name: String,
    pub duration: i32,
    pub predecessors: Vec<Predecessor>,
    /// Optional resource name
    pub resource: String,
    /// WBS code
    pub wbs: String,
    /// Filled in by the scheduler
    pub cpm: CpmResult,
}

/// What an activity is, with its text fields taken as character sequences.
pub struct ActivityView {
    pub id: Seq<char>,
    pub name: Seq<char>,
    pub duration: int,
    pub predecessors: Seq<Predecessor>,
    pub resource: Seq<char>,
    pub wbs: Seq<char>,
    pub cpm: CpmResult,
}

impl View for Activity {
    type V = ActivityView;

    open spec fn view(&self) -> ActivityView {
        ActivityView {
            id: self.id@,
            name: self.name@,
            duration: self.duration as int,
            predecessors: self.predecessors@,
            resource: self.resource@,
            wbs: self.wbs@,
            cpm: self.cpm,
        }
    }
}

impl Activity {
    /// `self` and `other` describe the same task: they agree on every field but the CPM result.
    pub open spec fn same_task(self, other: Activity) -> bool {
        &&& self.id@ == other.id@
        &&& self.name@ == other.name@
        &&& self.duration == other.duration
        &&& self.predecessors@ == other.predecessors@
        &&& self.resource@ == other.resource@
        &&& self.wbs@ == other.wbs@
    }

    /// A new activity with no predecessors, no resource, no WBS code and a blank result.
    pub fn new(id: &str, name: &str, duration: i32) -> (r: Activity)
        ensures
            r.id@ == id@,
            r.name@ == name@,
            r.duration == duration,
            r.predecessors@.len() == 0,
            r.resource@.len() == 0,
            r.wbs@.len() == 0,
            r.cpm == CpmResult::blank(),
    {
        Activity {
            id: id.to_string(),
            name: name.to_string(),
            duration,
            predecessors: Vec::new(),
            resource: String::new(),
            wbs: String::new(),
            cpm: CpmResult::default(),
        }
    }

    /// Adds a Finish-to-Start predecessor with no lag.
    pub fn with_predecessor(self, pred_id: &str) -> (r: Activity)
        ensures
            r.id@ == self.id@,
            r.name@ == self.name@,
            r.duration == self.duration,
            r.predecessors@.len() == self.predecessors@.len() + 1,
            r.predecessors@.drop_last() == self.predecessors@,
            r.predecessors@.last().activity_id@ == pred_id@,
            r.predecessors@.last().rel_type == RelType::FS,
            r.predecessors@.last().lag == 0,
            r.resource@ == self.resource@,
            r.wbs@ == self.wbs@,
            r.cpm == self.cpm,
    {
        let mut act = self;
        act.predecessors.push(Predecessor { activity_id: pred_id.to_string(), rel_type: RelType::FS, lag: 0 });
        act
    }

    /// Sets the resource name.
    pub fn with_resource(self, resource: &str) -> (r: Activity)
        ensures
            r.id@ == self.id@,
            r.name@ == self.name@,
            r.duration == self.duration,
            r.predecessors@ == self.predecessors@,
            r.resource@ == resource@,
            r.wbs@ == self.wbs@,
            r.cpm == self.cpm,
    {
        let mut act = self;
        act.resource = resource.to_string();
        act
    }

    /// A copy of the activity whose CPM result is `cpm`.
    pub fn copy_with_result(&self, cpm: CpmResult) -> (r: Activity)
        ensures
            r.same_task(*self),
            r.cpm == cpm,
    {
        let mut preds: Vec<Predecessor> = Vec::new();
        let mut i: usize = 0;
        while i < self.predecessors.len()
            invariant
                i <= self.predecessors@.len(),
                preds@ == self.predecessors@.subrange(0, i as int),
            decreases self.predecessors@.len() - i,
        {
            preds.push(self.predecessors[i].duplicate());
            i += 1;
        }
        assert(preds@ =~= self.predecessors@);
        Activity {
            id: self.id.clone(),
            name: self.name.clone(),
            duration: self.duration,
            predecessors: preds,
            resource: self.resource.clone(),
            wbs: self.wbs.clone(),
            cpm,
        }
    }
}

/// Whether `c` is a lowercase hexadecimal digit (0-9, a-f).
pub open spec fn lower_hex(c: char) -> bool {
    ||| 0x30 <= (c as u32) <= 0x39
    ||| 0x61 <= (c as u32) <= 0x66
}

/// Whether `c` is an uppercase hexadecimal digit (0-9, A-F).
pub open spec fn upper_hex(c: char) -> bool {
    ||| 0x30 <= (c as u32) <= 0x39
    ||| 0x41 <= (c as u32) <= 0x46
}

/// The uppercase form of a lowercase hexadecimal digit.
pub open spec fn hex_upper(c: char) -> char {
    if c == 'a' {
        'A'
    } else if c == 'b' {
        'B'
    } else if c == 'c' {
        'C'
    } else if c == 'd' {
        'D'
    } else if c == 'e' {
        'E'
    } else if c == 'f' {
        'F'
    } else {
        c
    }
}

/// A fresh random (version 4) UUID in its hyphenated text form.
///
/// Trusted: `uuid::Uuid::new_v4` and its `Display`, which writes the 16 bytes as 32
/// lowercase hexadecimal digits in groups of 8-4-4-4-12 separated by '-' (36 characters).
/// The digits are random, so only their form is stated. `new_v4` panics if the system
/// cannot supply random bytes.
#[verifier::external_body]
fn random_uuid_text() -> (s: String)
    ensures
        s@.len() == 36,
        s@[8] == '-',
        forall|i: int| 0 <= i < 8 ==> lower_hex(#[trigger] s@[i]),
{
    uuid::Uuid::new_v4().to_string()
}

fn upper_digit(c: char) -> (r: char)
    ensures
        r == hex_upper(c),
{
    match c {
        'a' => 'A',
        'b' => 'B',
        'c' => 'C',
        'd' => 'D',
        'e' => 'E',
        'f' => 'F',
        _ => c,
    }
}

/// The first eight characters of a UUID's text, in uppercase.
pub fn uid_from_uuid_text(t: &str) -> (r: String)
    requires
        t@.len() >= 8,
        forall|i: int| 0 <= i < 8 ==> lower_hex(#[trigger] t@[i]),
    ensures
        r@ == Seq::new(8, |i: int| hex_upper(t@[i])),
        forall|i: int| 0 <= i < 8 ==> upper_hex(#[trigger] r@[i]),
{
    let mut r = String::new();
    let mut i: usize = 0;
    while i < 8
        invariant
            t@.len() >= 8,
            forall|i2: int| 0 <= i2 < 8 ==> lower_hex(#[trigger] t@[i2]),
            i <= 8,
            r@ == Seq::new(i as nat, |i2: int| hex_upper(t@[i2])),
        decreases 8 - i,
    {
        let c = upper_digit(t.get_char(i));
        let ghost before = r@;
        push_char(&mut r, c);
        proof {
            assert(r@ =~= Seq::new((i + 1) as nat, |i2: int| hex_upper(t@[i2])));
        }
        i += 1;
    }
    proof {
        assert forall|i2: int| 0 <= i2 < 8 implies upper_hex(#[trigger] r@[i2]) by {
            assert(lower_hex(t@[i2]));
        }
    }
    r
}

impl Activity {
    /// A new unique id (for "Add Activity"): the first eight hexadecimal digits of a random
    /// UUID, in uppercase.
    pub fn new_uid() -> (r: String)
        ensures
            r@.len() == 8,
            forall|i: int| 0 <= i < 8 ==> upper_hex(#[trigger] r@[i]),
    {
        let t = random_uuid_text();
        uid_from_uuid_text(t.as_str())
    }
}

} // verus!
