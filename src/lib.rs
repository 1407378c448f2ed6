//! Per-directory toolchain version pinning: requirement parsing and persistence,
//! installation selection, and management of the configuration block that the
//! tool keeps in a user's shell startup files.

pub mod lines;
pub mod requirement;
pub mod shell;
pub mod toolchain;
pub mod version;

pub use requirement::{find_nearest_pinning_file, pinning_file_content, pinning_line, Error, SelectedVersion, VersionOrPath};
pub use shell::{
    config_lines, configure_shell_file, file_contains, home_env_variable, remove_block,
    write_config_to, write_footer_to, write_header_to, EXECUTABLE_NAME, INFO_FILE,
    SHELL_CONFIG_IDENTIFYING_PATTERN_END, SHELL_CONFIG_IDENTIFYING_PATTERN_START, TOOLCHAIN_FILE,
};
pub use toolchain::{InstalledToolchain, NotInstalledToolchain, ToolchainNotInstalled};
pub use version::{Identifier, Version};
