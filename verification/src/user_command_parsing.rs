//! What the user answers when asked about a recommendation.

use crate::numbers::{numeral_in_range, read_numeral};
use crate::text::{chars_of, split_words, words_of};
use vstd::prelude::*;

verus! {

/// Why an answer is refused.
#[derive(Clone, Copy, Debug, PartialEq, Eq, Structural)]
pub enum UserCommandError {
    /// More than two words.
    TooManyWords,
    /// The first word holds a character that is no command letter.
    InvalidCharacter(char),
    /// Both `y` and `n`.
    AcceptAndReject,
    /// `d` without an action number.
    MissingActionNumber,
    /// `r` without an action number.
    MissingPersistentActionNumber,
    /// The second word is no number.
    InvalidActionNumber,
}

/// What the user asked for.
#[derive(Clone, Copy, Debug, PartialEq, Eq, Structural)]
pub struct UserCommand {
    pub encountered_no: bool,
    pub encountered_yes: bool,
    pub encountered_reject_command_persistently: bool,
    pub action_number_to_reject: Option<usize>,
    pub action_number_reject_persistently: Option<usize>,
    pub encountered_accept_the_rest_of_the_commands: bool,
}

/// The character is one of the command letters `y n r d c a`.
pub open spec fn is_command_letter(c: char) -> bool {
    c == 'y' || c == 'n' || c == 'r' || c == 'd' || c == 'c' || c == 'a'
}

/// The last character of `letters` that is no command letter, if there is
/// one.
pub open spec fn last_invalid_letter(letters: Seq<char>) -> Option<char>
    decreases letters.len(),
{
    if letters.len() == 0 {
        None
    } else if !is_command_letter(letters.last()) {
        Some(letters.last())
    } else {
        last_invalid_letter(letters.drop_last())
    }
}

/// What an answer means. No word at all rejects the recommendation. The
/// first word is a set of command letters; `r` and `d` need a second word,
/// the number of an action.
pub open spec fn user_command(input: Seq<char>) -> Result<UserCommand, UserCommandError> {
    let words = words_of(input);
    if words.len() == 0 {
        Ok(
            UserCommand {
                encountered_no: true,
                encountered_yes: false,
                encountered_reject_command_persistently: false,
                action_number_to_reject: None,
                action_number_reject_persistently: None,
                encountered_accept_the_rest_of_the_commands: false,
            },
        )
    } else if words.len() > 2 {
        Err(UserCommandError::TooManyWords)
    } else {
        let letters = words[0];
        let wants_number = letters.contains('r') || letters.contains('d');
        match last_invalid_letter(letters) {
            Some(c) => Err(UserCommandError::InvalidCharacter(c)),
            None => if letters.contains('n') && letters.contains('y') {
                Err(UserCommandError::AcceptAndReject)
            } else if letters.contains('d') && words.len() < 2 {
                Err(UserCommandError::MissingActionNumber)
            } else if letters.contains('r') && words.len() < 2 {
                Err(UserCommandError::MissingPersistentActionNumber)
            } else if wants_number && numeral_in_range(words[1], 0, usize::MAX as int) is None {
                Err(UserCommandError::InvalidActionNumber)
            } else {
                let number = if wants_number {
                    Some(numeral_in_range(words[1], 0, usize::MAX as int)->0 as usize)
                } else {
                    None
                };
                Ok(
                    UserCommand {
                        encountered_no: letters.contains('n'),
                        encountered_yes: letters.contains('y'),
                        encountered_reject_command_persistently: letters.contains('c'),
                        action_number_to_reject: if letters.contains('d') {
                            number
                        } else {
                            None
                        },
                        action_number_reject_persistently: if letters.contains('r') {
                            number
                        } else {
                            None
                        },
                        encountered_accept_the_rest_of_the_commands: letters.contains('a'),
                    },
                )
            },
        }
    }
}

impl UserCommand {
    /// Reads an answer.
    pub fn new(input_text: String) -> (r: Result<UserCommand, UserCommandError>)
        ensures
            r == user_command(input_text@),
    {
        let words = split_words(&chars_of(input_text.as_str()));
        let ghost word_views = words@.map_values(|w: Vec<char>| w@);
        assert(word_views.len() == words.len());
        if words.len() == 0 {
            return Ok(
                UserCommand {
                    encountered_no: true,
                    encountered_yes: false,
                    encountered_reject_command_persistently: false,
                    action_number_to_reject: None,
                    action_number_reject_persistently: None,
                    encountered_accept_the_rest_of_the_commands: false,
                },
            );
        }
        if words.len() > 2 {
            return Err(UserCommandError::TooManyWords);
        }
        let letters = &words[0];
        assert(letters@ == word_views[0]);
        let mut encountered_no = false;
        let mut encountered_yes = false;
        let mut encountered_reject_command_persistently = false;
        let mut expecting_action_number_to_reject = false;
        let mut expecting_action_number_reject_persistently = false;
        let mut encountered_accept_the_rest_of_the_commands = false;
        let mut invalid_character: Option<char> = None;
        let mut i: usize = 0;
        while i < letters.len()
            invariant
                i <= letters.len(),
                encountered_no == letters@.subrange(0, i as int).contains('n'),
                encountered_yes == letters@.subrange(0, i as int).contains('y'),
                encountered_reject_command_persistently == letters@.subrange(0, i as int).contains(
                    'c',
                ),
                expecting_action_number_to_reject == letters@.subrange(0, i as int).contains('d'),
                expecting_action_number_reject_persistently == letters@.subrange(
                    0,
                    i as int,
                ).contains('r'),
                encountered_accept_the_rest_of_the_commands == letters@.subrange(
                    0,
                    i as int,
                ).contains('a'),
                invalid_character == last_invalid_letter(letters@.subrange(0, i as int)),
            decreases letters.len() - i,
        {
            let ghost before = letters@.subrange(0, i as int);
            let ghost after = letters@.subrange(0, i + 1);
            assert(after.drop_last() == before);
            assert(after == before.push(letters@[i as int]));
            assert forall|x: char| after.contains(x) == (before.contains(x) || x == letters@[i as int]) by {
                if before.contains(x) {
                    let k = choose|k: int| 0 <= k < before.len() && before[k] == x;
                    assert(after[k] == x);
                }
                if x == letters@[i as int] {
                    assert(after[i as int] == x);
                }
            }
            let c = letters[i];
            if c == 'y' {
                encountered_yes = true;
            } else if c == 'n' {
                encountered_no = true;
            } else if c == 'r' {
                expecting_action_number_reject_persistently = true;
            } else if c == 'd' {
                expecting_action_number_to_reject = true;
            } else if c == 'c' {
                encountered_reject_command_persistently = true;
            } else if c == 'a' {
                encountered_accept_the_rest_of_the_commands = true;
            } else {
                invalid_character = Some(c);
            }
            i += 1;
        }
        assert(letters@.subrange(0, letters.len() as int) == letters@);
        match invalid_character {
            Some(c) => {
                return Err(UserCommandError::InvalidCharacter(c));
            },
            None => {},
        }
        if encountered_no && encountered_yes {
            return Err(UserCommandError::AcceptAndReject);
        }
        if expecting_action_number_to_reject && words.len() < 2 {
            return Err(UserCommandError::MissingActionNumber);
        }
        if expecting_action_number_reject_persistently && words.len() < 2 {
            return Err(UserCommandError::MissingPersistentActionNumber);
        }
        let mut action_number_to_reject: Option<usize> = None;
        let mut action_number_reject_persistently: Option<usize> = None;
        if expecting_action_number_reject_persistently || expecting_action_number_to_reject {
            assert(words[1]@ == word_views[1]);
            match read_numeral(&words[1], 0, usize::MAX as i128) {
                Some(action_number) => {
                    if expecting_action_number_reject_persistently {
                        action_number_reject_persistently = Some(action_number as usize);
                    }
                    if expecting_action_number_to_reject {
                        action_number_to_reject = Some(action_number as usize);
                    }
                },
                None => {
                    return Err(UserCommandError::InvalidActionNumber);
                },
            }
        }
        Ok(
            UserCommand {
                encountered_no,
                encountered_yes,
                encountered_reject_command_persistently,
                action_number_to_reject,
                action_number_reject_persistently,
                encountered_accept_the_rest_of_the_commands,
            },
        )
    }
}

} // verus!
