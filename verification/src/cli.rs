//! The command line as plain values, and the action that it asks for.

use crate::text::{remove_all, strip_marker};
use vstd::prelude::*;

verus! {

/// The parsed command line: the kind of record and what to do with it.
pub struct Opts {
    /// expense, subscription, portfolio, account
    pub main: String,
    pub subcommand: Option<Sub>,
}

/// What to do with the records of the chosen kind.
pub enum Sub {
    /// View items
    View(ViewOpts),
    /// Add new
    Add(AddOpts),
    /// Configure
    Manage(ManageOpts),
}

pub struct ViewOpts {
    /// The number of items to display, as it was typed.
    pub number: Option<String>,
}

pub struct AddOpts {
    /// The file to ingest.
    pub file: Option<String>,
}

pub struct ManageOpts {}

/// The action that a command line asks for.
#[derive(Debug, PartialEq, Eq)]
pub enum Command {
    /// Show all expenses.
    ViewExpenses,
    /// Show the latest expenses; the count is still as it was typed.
    ViewLatestExpenses(String),
    /// Ask for an expense and store it.
    AddExpense,
    /// Show the subscriptions.
    ViewSubscriptions,
    /// Ask for a subscription and store it.
    AddSubscription,
    /// Show the accounts with their values.
    ViewAccounts,
    /// Ask for an account's new value and store it.
    ManageAccounts,
    /// Show the latest portfolio snapshot.
    ViewPortfolio,
    /// Ingest the named file into the portfolio.
    AddPortfolio(String),
    /// The command line names a file to ingest but gives none.
    MissingFile,
    /// The command line asks for something that does not exist yet.
    Unimplemented,
    /// The command line names no known kind of record.
    Nothing,
}

/// The mathematical content of a [`Command`].
pub enum CommandView {
    ViewExpenses,
    ViewLatestExpenses(Seq<char>),
    AddExpense,
    ViewSubscriptions,
    AddSubscription,
    ViewAccounts,
    ManageAccounts,
    ViewPortfolio,
    AddPortfolio(Seq<char>),
    MissingFile,
    Unimplemented,
    Nothing,
}

impl View for Command {
    type V = CommandView;

    open spec fn view(&self) -> CommandView {
        match self {
            Command::ViewExpenses => CommandView::ViewExpenses,
            Command::ViewLatestExpenses(n) => CommandView::ViewLatestExpenses(n@),
            Command::AddExpense => CommandView::AddExpense,
            Command::ViewSubscriptions => CommandView::ViewSubscriptions,
            Command::AddSubscription => CommandView::AddSubscription,
            Command::ViewAccounts => CommandView::ViewAccounts,
            Command::ManageAccounts => CommandView::ManageAccounts,
            Command::ViewPortfolio => CommandView::ViewPortfolio,
            Command::AddPortfolio(file) => CommandView::AddPortfolio(file@),
            Command::MissingFile => CommandView::MissingFile,
            Command::Unimplemented => CommandView::Unimplemented,
            Command::Nothing => CommandView::Nothing,
        }
    }
}

/// The file name as it is looked up: without any `.\` in it.
pub open spec fn file_name(typed: Seq<char>) -> Seq<char> {
    remove_all(typed, seq!['.', '\\'])
}

/// The action that `opts` asks for.
pub open spec fn command_of(opts: &Opts) -> CommandView {
    if opts.main@ == "expense"@ {
        match opts.subcommand {
            Some(Sub::View(view)) => match view.number {
                None => CommandView::ViewExpenses,
                Some(n) => CommandView::ViewLatestExpenses(n@),
            },
            Some(Sub::Add(_)) => CommandView::AddExpense,
            _ => CommandView::Unimplemented,
        }
    } else if opts.main@ == "subscription"@ {
        match opts.subcommand {
            Some(Sub::View(_)) => CommandView::ViewSubscriptions,
            Some(Sub::Add(_)) => CommandView::AddSubscription,
            Some(Sub::Manage(_)) => CommandView::Unimplemented,
            None => CommandView::ViewSubscriptions,
        }
    } else if opts.main@ == "account"@ {
        match opts.subcommand {
            Some(Sub::View(_)) => CommandView::ViewAccounts,
            Some(Sub::Manage(_)) => CommandView::ManageAccounts,
            _ => CommandView::Unimplemented,
        }
    } else if opts.main@ == "portfolio"@ {
        match opts.subcommand {
            Some(Sub::View(_)) => CommandView::ViewPortfolio,
            Some(Sub::Add(add)) => match add.file {
                Some(file) => CommandView::AddPortfolio(file_name(file@)),
                None => CommandView::MissingFile,
            },
            _ => CommandView::Unimplemented,
        }
    } else {
        CommandView::Nothing
    }
}

/// Tests whether `text` is the word `word`.
fn is_word(text: &String, word: &str) -> (r: bool)
    ensures
        r == (text@ == word@),
{
    let wanted: String = String::from_str(word);
    *text == wanted
}

impl Opts {
    /// The action that this command line asks for.
    pub fn command(&self) -> (r: Command)
        ensures
            r@ == command_of(self),
    {
        if is_word(&self.main, "expense") {
            match &self.subcommand {
                Some(Sub::View(view)) => match &view.number {
                    None => Command::ViewExpenses,
                    Some(n) => Command::ViewLatestExpenses(n.clone()),
                },
                Some(Sub::Add(_)) => Command::AddExpense,
                _ => Command::Unimplemented,
            }
        } else if is_word(&self.main, "subscription") {
            match &self.subcommand {
                Some(Sub::View(_)) => Command::ViewSubscriptions,
                Some(Sub::Add(_)) => Command::AddSubscription,
                Some(Sub::Manage(_)) => Command::Unimplemented,
                None => Command::ViewSubscriptions,
            }
        } else if is_word(&self.main, "account") {
            match &self.subcommand {
                Some(Sub::View(_)) => Command::ViewAccounts,
                Some(Sub::Manage(_)) => Command::ManageAccounts,
                _ => Command::Unimplemented,
            }
        } else if is_word(&self.main, "portfolio") {
            match &self.subcommand {
                Some(Sub::View(_)) => Command::ViewPortfolio,
                Some(Sub::Add(add)) => match &add.file {
                    Some(file) => {
                        proof {
                            reveal_strlit(".\\");
                            assert(".\\"@ =~= seq!['.', '\\']);
                        }
                        Command::AddPortfolio(strip_marker(file.as_str(), ".\\"))
                    },
                    None => Command::MissingFile,
                },
                _ => Command::Unimplemented,
            }
        } else {
            Command::Nothing
        }
    }
}

} // verus!
