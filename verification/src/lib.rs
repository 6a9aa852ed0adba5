//! Decision logic of the Minutes desktop shell: call detection, cooldowns,
//! the end-of-meeting monitor, Outlook invitee extraction and the small
//! computations behind the shell's commands.

pub mod text;
pub mod names;
pub mod call_detect;
pub mod outlook;
pub mod commands;
