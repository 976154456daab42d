//! The power menu.
use vstd::prelude::*;
use crate::pratt::owned;
use crate::text::views;

verus! {

#[derive(Debug, Clone)]
pub struct PowerOption {
    pub name: String,
    pub command: Vec<String>,
}

pub open spec fn power_menu() -> Seq<(Seq<char>, Seq<Seq<char>>)> {
    seq![
        ("Lock Screen"@, seq!["sh"@, "-c"@, "loginctl lock-session || true"@]),
        ("Sleep / Suspend"@, seq!["loginctl"@, "suspend"@]),
        ("Reboot System"@, seq!["loginctl"@, "reboot"@]),
        ("Power Off"@, seq!["loginctl"@, "poweroff"@]),
        (
            "Logout"@,
            seq![
                "sh"@,
                "-c"@,
                "mmsg dispatch quit 2>/dev/null || loginctl terminate-session \"\" 2>/dev/null || loginctl terminate-user \"\" 2>/dev/null || true"@,
            ],
        ),
    ]
}

fn option(name: &str, command: Vec<String>) -> (r: PowerOption)
    ensures
        r.name@ == name@,
        r.command@ == command@,
{
    PowerOption { name: owned(name), command }
}

/// The entries of the power menu, in order, with the commands they run.
pub fn all_power_options() -> (r: Vec<PowerOption>)
    ensures
        r.len() == power_menu().len(),
        forall|i: int|
            0 <= i < r.len() ==> (#[trigger] r@[i]).name@ == power_menu()[i].0 && views(
                r@[i].command@,
            ) == power_menu()[i].1,
{
    let mut r: Vec<PowerOption> = Vec::new();
    let c1 = vec![owned("sh"), owned("-c"), owned("loginctl lock-session || true")];
    assert(views(c1@) =~= power_menu()[0].1);
    r.push(option("Lock Screen", c1));
    let c2 = vec![owned("loginctl"), owned("suspend")];
    assert(views(c2@) =~= power_menu()[1].1);
    r.push(option("Sleep / Suspend", c2));
    let c3 = vec![owned("loginctl"), owned("reboot")];
    assert(views(c3@) =~= power_menu()[2].1);
    r.push(option("Reboot System", c3));
    let c4 = vec![owned("loginctl"), owned("poweroff")];
    assert(views(c4@) =~= power_menu()[3].1);
    r.push(option("Power Off", c4));
    let c5 = vec![
        owned("sh"),
        owned("-c"),
        owned(
            "mmsg dispatch quit 2>/dev/null || loginctl terminate-session \"\" 2>/dev/null || loginctl terminate-user \"\" 2>/dev/null || true",
        ),
    ];
    assert(views(c5@) =~= power_menu()[4].1);
    r.push(option("Logout", c5));
    r
}

} // verus!
