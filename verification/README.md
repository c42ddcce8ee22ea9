# hypr_profiles

Monitor, workspace and audio profiles for a Hyprland desktop. A profile says
how each monitor is set up (resolution, refresh rate, scale, position,
transformation, mirroring), where workspaces go, and which audio sink to use.
Profiles are stored in `~/.config/hypr_profiles/config.toml` and applied through
`hyprctl`, `pactl` and `notify-send`.

## Layout

- `src/` is the library, written in Verus: every rule is a function with a
  contract, proved.
  - `display/`: reading Hyprland's mode strings, grouping and ordering the
    offered modes, turning Hyprland's monitor description into a `Monitor`,
    and the `hyprctl` calls that apply a profile (`monitor_steps`,
    `workspace_steps`).
  - `profile/`: the profile types, the validation of a profile against the
    monitors at hand, and the stored profiles (`ProfilesManager`): adding,
    looking up, making current, and the next profile.
  - `audio/`: reading `pactl list short sinks`, and the retrying selection
    of a sink as a state machine (`SinkRetry`).
  - `dispatcher.rs`: what applying a profile does after its monitors.
  - `text.rs`, `float_bits.rs`, `float_value.rs`: characters, decimal
    numbers, and floating-point numbers held as bit patterns (the library
    holds no floating-point values; the program converts at its edge).
- `app/` is the program: the command line, files, processes, JSON and TOML,
  and the floating-point work: parsing refresh rates, and listing the pairs
  of a configured and an offered rate that lie within 0.01 Hz of each
  other, which it hands to the library as bit patterns.
- `tests/` exercises the library on concrete values.
