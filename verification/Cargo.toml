[package]
name = "console_games"
version = "0.1.0"
edition = "2021"
publish = false

[dependencies]
console = "*"
eff-wordlist = "*"
rand = "*"
random-number = "*"
