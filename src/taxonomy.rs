use vstd::prelude::*;
use crate::text::same_text;

verus! {

/// The quadrant a task is classified under; it decides the task's colour.
#[derive(Debug, Clone, Copy, PartialEq, Eq, Structural)]
pub enum TaskType {
    UrgentImportant,
    UrgentNotImportant,
    NotUrgentImportant,
    NotUrgentNotImportant,
}

/// The column a task sits in: one of the four quadrants, or `Today`.
#[derive(Debug, Clone, Copy, PartialEq, Eq, Structural)]
pub enum Bucket {
    UrgentImportant,
    UrgentNotImportant,
    NotUrgentImportant,
    NotUrgentNotImportant,
    Today,
}

/// The quadrant that a quadrant bucket stands for; `Today` has none.
pub open spec fn category_of(b: Bucket) -> Option<TaskType> {
    match b {
        Bucket::UrgentImportant => Some(TaskType::UrgentImportant),
        Bucket::UrgentNotImportant => Some(TaskType::UrgentNotImportant),
        Bucket::NotUrgentImportant => Some(TaskType::NotUrgentImportant),
        Bucket::NotUrgentNotImportant => Some(TaskType::NotUrgentNotImportant),
        Bucket::Today => None,
    }
}

/// The category a new task gets in bucket `b`: the bucket's own quadrant,
/// and `UrgentImportant` for `Today`.
pub open spec fn initial_category(b: Bucket) -> TaskType {
    match category_of(b) {
        Some(t) => t,
        None => TaskType::UrgentImportant,
    }
}

pub open spec fn bucket_token(b: Bucket) -> Seq<char> {
    match b {
        Bucket::UrgentImportant => "UrgentImportant"@,
        Bucket::UrgentNotImportant => "UrgentNotImportant"@,
        Bucket::NotUrgentImportant => "NotUrgentImportant"@,
        Bucket::NotUrgentNotImportant => "NotUrgentNotImportant"@,
        Bucket::Today => "Today"@,
    }
}

pub open spec fn task_type_token(t: TaskType) -> Seq<char> {
    match t {
        TaskType::UrgentImportant => "UrgentImportant"@,
        TaskType::UrgentNotImportant => "UrgentNotImportant"@,
        TaskType::NotUrgentImportant => "NotUrgentImportant"@,
        TaskType::NotUrgentNotImportant => "NotUrgentNotImportant"@,
    }
}

/// The bucket whose token is `s`, if any.
pub open spec fn bucket_named(s: Seq<char>) -> Option<Bucket> {
    if s == "UrgentImportant"@ {
        Some(Bucket::UrgentImportant)
    } else if s == "UrgentNotImportant"@ {
        Some(Bucket::UrgentNotImportant)
    } else if s == "NotUrgentImportant"@ {
        Some(Bucket::NotUrgentImportant)
    } else if s == "NotUrgentNotImportant"@ {
        Some(Bucket::NotUrgentNotImportant)
    } else if s == "Today"@ {
        Some(Bucket::Today)
    } else {
        None
    }
}

/// The category whose token is `s`, if any.
pub open spec fn task_type_named(s: Seq<char>) -> Option<TaskType> {
    if s == "UrgentImportant"@ {
        Some(TaskType::UrgentImportant)
    } else if s == "UrgentNotImportant"@ {
        Some(TaskType::UrgentNotImportant)
    } else if s == "NotUrgentImportant"@ {
        Some(TaskType::NotUrgentImportant)
    } else if s == "NotUrgentNotImportant"@ {
        Some(TaskType::NotUrgentNotImportant)
    } else {
        None
    }
}

proof fn lemma_tokens_distinct()
    ensures
        "UrgentImportant"@ != "UrgentNotImportant"@,
        "UrgentImportant"@ != "NotUrgentImportant"@,
        "UrgentImportant"@ != "NotUrgentNotImportant"@,
        "UrgentImportant"@ != "Today"@,
        "UrgentNotImportant"@ != "NotUrgentImportant"@,
        "UrgentNotImportant"@ != "NotUrgentNotImportant"@,
        "UrgentNotImportant"@ != "Today"@,
        "NotUrgentImportant"@ != "NotUrgentNotImportant"@,
        "NotUrgentImportant"@ != "Today"@,
        "NotUrgentNotImportant"@ != "Today"@,
{
    reveal_strlit("UrgentImportant");
    reveal_strlit("UrgentNotImportant");
    reveal_strlit("NotUrgentImportant");
    reveal_strlit("NotUrgentNotImportant");
    reveal_strlit("Today");
    assert("UrgentImportant"@.len() != "UrgentNotImportant"@.len());
    assert("UrgentImportant"@.len() != "NotUrgentImportant"@.len());
    assert("UrgentImportant"@.len() != "NotUrgentNotImportant"@.len());
    assert("UrgentImportant"@.len() != "Today"@.len());
    assert("UrgentNotImportant"@[0] != "NotUrgentImportant"@[0]);
    assert("UrgentNotImportant"@.len() != "NotUrgentNotImportant"@.len());
    assert("UrgentNotImportant"@.len() != "Today"@.len());
    assert("NotUrgentImportant"@.len() != "NotUrgentNotImportant"@.len());
    assert("NotUrgentImportant"@.len() != "Today"@.len());
    assert("NotUrgentNotImportant"@.len() != "Today"@.len());
}

/// Every bucket's token reads back as that bucket.
pub proof fn lemma_bucket_token_round_trip(b: Bucket)
    ensures
        bucket_named(bucket_token(b)) == Some(b),
{
    lemma_tokens_distinct();
}

/// Every category's token reads back as that category.
pub proof fn lemma_task_type_token_round_trip(t: TaskType)
    ensures
        task_type_named(task_type_token(t)) == Some(t),
{
    lemma_tokens_distinct();
}

impl TaskType {
    /// The category a task added to `b` starts with.
    pub fn from_bucket(b: Bucket) -> (r: TaskType)
        ensures
            r == initial_category(b),
    {
        match b {
            Bucket::UrgentImportant => TaskType::UrgentImportant,
            Bucket::UrgentNotImportant => TaskType::UrgentNotImportant,
            Bucket::NotUrgentImportant => TaskType::NotUrgentImportant,
            Bucket::NotUrgentNotImportant => TaskType::NotUrgentNotImportant,
            Bucket::Today => TaskType::UrgentImportant,
        }
    }

    pub fn as_str(&self) -> (r: &'static str)
        ensures
            r@ == task_type_token(*self),
    {
        match self {
            TaskType::UrgentImportant => "UrgentImportant",
            TaskType::UrgentNotImportant => "UrgentNotImportant",
            TaskType::NotUrgentImportant => "NotUrgentImportant",
            TaskType::NotUrgentNotImportant => "NotUrgentNotImportant",
        }
    }
}

impl Bucket {
    pub fn as_str(&self) -> (r: &'static str)
        ensures
            r@ == bucket_token(*self),
    {
        match self {
            Bucket::UrgentImportant => "UrgentImportant",
            Bucket::UrgentNotImportant => "UrgentNotImportant",
            Bucket::NotUrgentImportant => "NotUrgentImportant",
            Bucket::NotUrgentNotImportant => "NotUrgentNotImportant",
            Bucket::Today => "Today",
        }
    }
}

/// The quadrant of a quadrant bucket, `None` for `Today`.
pub fn category_for_bucket(b: Bucket) -> (r: Option<TaskType>)
    ensures
        r == category_of(b),
{
    match b {
        Bucket::UrgentImportant => Some(TaskType::UrgentImportant),
        Bucket::UrgentNotImportant => Some(TaskType::UrgentNotImportant),
        Bucket::NotUrgentImportant => Some(TaskType::NotUrgentImportant),
        Bucket::NotUrgentNotImportant => Some(TaskType::NotUrgentNotImportant),
        Bucket::Today => None,
    }
}

/// Reads a bucket token; `None` where `s` names no bucket.
pub fn parse_bucket(s: &str) -> (r: Option<Bucket>)
    ensures
        r == bucket_named(s@),
{
    if same_text(s, "UrgentImportant") {
        Some(Bucket::UrgentImportant)
    } else if same_text(s, "UrgentNotImportant") {
        Some(Bucket::UrgentNotImportant)
    } else if same_text(s, "NotUrgentImportant") {
        Some(Bucket::NotUrgentImportant)
    } else if same_text(s, "NotUrgentNotImportant") {
        Some(Bucket::NotUrgentNotImportant)
    } else if same_text(s, "Today") {
        Some(Bucket::Today)
    } else {
        None
    }
}

/// Reads a category token; `None` where `s` names no category.
pub fn parse_task_type(s: &str) -> (r: Option<TaskType>)
    ensures
        r == task_type_named(s@),
{
    if same_text(s, "UrgentImportant") {
        Some(TaskType::UrgentImportant)
    } else if same_text(s, "UrgentNotImportant") {
        Some(TaskType::UrgentNotImportant)
    } else if same_text(s, "NotUrgentImportant") {
        Some(TaskType::NotUrgentImportant)
    } else if same_text(s, "NotUrgentNotImportant") {
        Some(TaskType::NotUrgentNotImportant)
    } else {
        None
    }
}


/// The quadrant whose colour a task shows: its bucket's own quadrant, and
/// its category where it sits in `Today`.
pub open spec fn display_type(b: Bucket, t: TaskType) -> TaskType {
    match category_of(b) {
        Some(q) => q,
        None => t,
    }
}

pub open spec fn color_token(t: TaskType) -> Seq<char> {
    match t {
        TaskType::UrgentImportant => "color-UI"@,
        TaskType::UrgentNotImportant => "color-UNI"@,
        TaskType::NotUrgentImportant => "color-NUI"@,
        TaskType::NotUrgentNotImportant => "color-NUN"@,
    }
}

/// The CSS class of the colour chip of a task in bucket `b` with category `t`.
pub fn color_class(b: Bucket, t: TaskType) -> (r: &'static str)
    ensures
        r@ == color_token(display_type(b, t)),
{
    match b {
        Bucket::Today => match t {
            TaskType::UrgentImportant => "color-UI",
            TaskType::UrgentNotImportant => "color-UNI",
            TaskType::NotUrgentImportant => "color-NUI",
            TaskType::NotUrgentNotImportant => "color-NUN",
        },
        Bucket::UrgentImportant => "color-UI",
        Bucket::UrgentNotImportant => "color-UNI",
        Bucket::NotUrgentImportant => "color-NUI",
        Bucket::NotUrgentNotImportant => "color-NUN",
    }
}

} // verus!
