pub mod models;
pub mod text;
pub mod downloader;
pub mod structuring;
pub mod whisper;
pub mod ffmpeg;
pub mod llm;
pub mod deps;
pub mod config;
pub mod settings;
pub mod db;
pub mod deepgram;
pub mod cloud;
pub mod commands;
pub mod clip;
