pub mod game_logic;
