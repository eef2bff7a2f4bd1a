use vstd::prelude::*;
use vstd::string::*;

verus! {

/// How pressing a correction or an alert is, from mild to severe.
#[derive(Debug, Clone, Copy, PartialEq, Eq, Structural)]
pub enum Urgency {
    Low,
    Medium,
    High,
    Critical,
}

/// The lowercase name under which an urgency is shown to people.
pub open spec fn urgency_label(u: Urgency) -> Seq<char> {
    match u {
        Urgency::Low => seq!['l', 'o', 'w'],
        Urgency::Medium => seq!['m', 'e', 'd', 'i', 'u', 'm'],
        Urgency::High => seq!['h', 'i', 'g', 'h'],
        Urgency::Critical => seq!['c', 'r', 'i', 't', 'i', 'c', 'a', 'l'],
    }
}

impl Urgency {
    /// The lowercase name of the level: "low", "medium", "high" or "critical".
    pub fn to_string(&self) -> (s: String)
        ensures
            s@ == urgency_label(*self),
    {
        match self {
            Urgency::Low => {
                proof {
                    reveal_strlit("low");
                }
                String::from_str("low")
            },
            Urgency::Medium => {
                proof {
                    reveal_strlit("medium");
                }
                String::from_str("medium")
            },
            Urgency::High => {
                proof {
                    reveal_strlit("high");
                }
                String::from_str("high")
            },
            Urgency::Critical => {
                proof {
                    reveal_strlit("critical");
                }
                String::from_str("critical")
            },
        }
    }
}


/// How an agent answers the stress that its total deviation puts on it,
/// from business as usual to survival mode.
#[derive(Debug, Clone, Copy, PartialEq, Eq, Structural)]
pub enum StressAction {
    Normal,
    Accelerated,
    Conservative,
    Emergency,
}

/// A notice that a metric has left its tolerance.
#[derive(Debug, Clone)]
pub struct Alert {
    pub id: String,
    pub metric: String,
    pub message: String,
    pub severity: Urgency,
    pub timestamp: u64,
    pub acknowledged: bool,
}

/// The mathematical content of an [`Alert`]: its texts as character sequences.
pub struct AlertView {
    pub id: Seq<char>,
    pub metric: Seq<char>,
    pub message: Seq<char>,
    pub severity: Urgency,
    pub timestamp: u64,
    pub acknowledged: bool,
}

impl View for Alert {
    type V = AlertView;

    open spec fn view(&self) -> AlertView {
        AlertView {
            id: self.id@,
            metric: self.metric@,
            message: self.message@,
            severity: self.severity,
            timestamp: self.timestamp,
            acknowledged: self.acknowledged,
        }
    }
}

impl Alert {
    /// A fresh, unacknowledged alert.
    pub fn new(id: String, metric: String, message: String, severity: Urgency, timestamp: u64) -> (a:
        Alert)
        ensures
            a@ == (AlertView {
                id: id@,
                metric: metric@,
                message: message@,
                severity,
                timestamp,
                acknowledged: false,
            }),
    {
        Alert { id, metric, message, severity, timestamp, acknowledged: false }
    }
}

} // verus!
